use crate::btree::{shape_matches, Cell, CellView};
use crate::error::DbError;
use crate::header::DatabaseHeader;
use crate::page::{is_interior, lemma_cells_spec, page_spec, Page, PageType};
use crate::record::{Record, SerialView};
use vstd::prelude::*;

verus! {

/// The bytes of each page of a file, page 1 first.
pub open spec fn pages_view(pages: &Vec<Vec<u8>>) -> Seq<Seq<u8>> {
    pages@.map_values(|p: Vec<u8>| p@)
}

pub open spec fn rows_view(rows: Seq<Record>) -> Seq<Seq<SerialView>> {
    rows.map_values(|r: Record| r@)
}

/// Where the page header starts: page 1 begins with the file header.
pub open spec fn page_padding(page_no: int) -> int {
    if page_no == 1 {
        100
    } else {
        0
    }
}

/// `done` followed by the rows of `rest`, if `rest` succeeded.
pub open spec fn prepend_rows(
    done: Seq<Seq<SerialView>>,
    rest: Result<Seq<Seq<SerialView>>, DbError>,
) -> Result<Seq<Seq<SerialView>>, DbError> {
    match rest {
        Ok(r) => Ok(done + r),
        Err(e) => Err(e),
    }
}

/// The rows under page `page_no`, in key order. `fuel` bounds the depth of
/// the descent, so that a file whose child pointers form a cycle fails
/// instead of looping.
pub open spec fn tree_rows(
    pages: Seq<Seq<u8>>,
    db: DatabaseHeader,
    page_no: int,
    fuel: nat,
) -> Result<Seq<Seq<SerialView>>, DbError>
    decreases fuel, 0nat,
{
    if fuel == 0 || page_no < 1 || page_no > pages.len() {
        Err(DbError::Format)
    } else {
        match page_spec(pages[page_no - 1], page_padding(page_no), db) {
            Err(e) => Err(e),
            Ok(p) => match cells_rows(pages, db, p.cells, (fuel - 1) as nat) {
                Err(e) => Err(e),
                Ok(rows) => if is_interior(p.header.kind) {
                    prepend_rows(
                        rows,
                        tree_rows(pages, db, p.header.page_number->Some_0 as int, (fuel - 1) as nat),
                    )
                } else {
                    Ok(rows)
                },
            },
        }
    }
}

/// The rows that the cells of one page contribute, in order: a leaf cell its
/// record, an interior cell the rows of its left child, followed on index
/// pages by the cell's own record.
pub open spec fn cells_rows(
    pages: Seq<Seq<u8>>,
    db: DatabaseHeader,
    cells: Seq<CellView>,
    fuel: nat,
) -> Result<Seq<Seq<SerialView>>, DbError>
    decreases fuel, cells.len(),
{
    if cells.len() == 0 {
        Ok(seq![])
    } else {
        let rest = cells_rows(pages, db, cells.drop_first(), fuel);
        match cells[0] {
            CellView::LeafTable { payload, .. } => prepend_rows(seq![payload], rest),
            CellView::LeafIndex { payload, .. } => prepend_rows(seq![payload], rest),
            CellView::InteriorTable { left_child, .. } => match tree_rows(
                pages,
                db,
                left_child as int,
                fuel,
            ) {
                Err(e) => Err(e),
                Ok(child) => prepend_rows(child, rest),
            },
            CellView::InteriorIndex { left_child, payload, .. } => match tree_rows(
                pages,
                db,
                left_child as int,
                fuel,
            ) {
                Err(e) => Err(e),
                Ok(child) => prepend_rows(child.push(payload), rest),
            },
        }
    }
}

/// The rows of a page whose cells gave `rows`: on interior pages the rows of
/// the rightmost child follow.
pub open spec fn after_cells(
    pages: Seq<Seq<u8>>,
    db: DatabaseHeader,
    kind: PageType,
    rightmost: Option<u32>,
    rows: Result<Seq<Seq<SerialView>>, DbError>,
    fuel: nat,
) -> Result<Seq<Seq<SerialView>>, DbError> {
    match rows {
        Err(e) => Err(e),
        Ok(rows) => if is_interior(kind) {
            prepend_rows(rows, tree_rows(pages, db, rightmost->Some_0 as int, fuel))
        } else {
            Ok(rows)
        },
    }
}

/// The record that a leaf cell holds.
pub open spec fn leaf_payload(c: CellView) -> Seq<SerialView> {
    match c {
        CellView::LeafTable { payload, .. } => payload,
        CellView::LeafIndex { payload, .. } => payload,
        _ => seq![],
    }
}

proof fn lemma_leaf_cells_rows(pages: Seq<Seq<u8>>, db: DatabaseHeader, cells: Seq<CellView>, fuel: nat)
    requires
        forall|i: int| 0 <= i < cells.len() ==> shape_matches(#[trigger] cells[i], PageType::LeafTable),
    ensures
        cells_rows(pages, db, cells, fuel) == Ok::<Seq<Seq<SerialView>>, DbError>(
            cells.map_values(|c: CellView| leaf_payload(c)),
        ),
    decreases cells.len(),
{
    if cells.len() == 0 {
        assert(cells.map_values(|c: CellView| leaf_payload(c)) == Seq::<Seq<SerialView>>::empty());
    } else {
        assert(shape_matches(cells[0], PageType::LeafTable));
        assert(cells[0] is LeafTable);
        assert forall|i: int| 0 <= i < cells.drop_first().len() implies shape_matches(
            #[trigger] cells.drop_first()[i],
            PageType::LeafTable,
        ) by {
            assert(cells.drop_first()[i] == cells[i + 1]);
        }
        lemma_leaf_cells_rows(pages, db, cells.drop_first(), fuel);
        assert(seq![leaf_payload(cells[0])] + cells.drop_first().map_values(
            |c: CellView| leaf_payload(c),
        ) == cells.map_values(|c: CellView| leaf_payload(c)));
    }
}

/// A table that is a single leaf page yields exactly one row per cell, and
/// row `i` is the record of the cell at the `i`-th cell pointer.
pub proof fn lemma_leaf_page_rows(pages: Seq<Seq<u8>>, db: DatabaseHeader, page_no: int, fuel: nat)
    requires
        fuel >= 1,
        1 <= page_no <= pages.len(),
        page_spec(pages[page_no - 1], page_padding(page_no), db) is Ok,
        page_spec(pages[page_no - 1], page_padding(page_no), db)->Ok_0.header.kind
            == PageType::LeafTable,
    ensures
        ({
            let p = page_spec(pages[page_no - 1], page_padding(page_no), db)->Ok_0;
            let rows = tree_rows(pages, db, page_no, fuel);
            &&& rows is Ok
            &&& rows->Ok_0.len() == p.header.number_of_cells
            &&& p.cell_pointers.len() == p.header.number_of_cells
            &&& forall|i: int|
                0 <= i < rows->Ok_0.len() ==> #[trigger] rows->Ok_0[i] == leaf_payload(p.cells[i])
                    && p.cells[i] is LeafTable
        }),
{
    let buf = pages[page_no - 1];
    let padding = page_padding(page_no);
    let p = page_spec(buf, padding, db)->Ok_0;
    let header = page_header_of(buf, padding);
    let ptrs = p.cell_pointers;
    lemma_cells_spec(buf, ptrs, header.kind, db);
    lemma_leaf_cells_rows(pages, db, p.cells, (fuel - 1) as nat);
}

/// The header that `page_spec` decodes from `buf[padding..]`.
spec fn page_header_of(buf: Seq<u8>, padding: int) -> crate::page::PageHeader {
    crate::page::page_header_spec(buf.subrange(padding, buf.len() as int))->Ok_0
}

/// An interior table page with two cells and a rightmost child yields the
/// rows of the first cell's child, then those of the second cell's child,
/// then those of the rightmost child.
pub proof fn lemma_two_level_rows(pages: Seq<Seq<u8>>, db: DatabaseHeader, page_no: int, fuel: nat)
    requires
        fuel >= 1,
        1 <= page_no <= pages.len(),
        page_spec(pages[page_no - 1], page_padding(page_no), db) is Ok,
        page_spec(pages[page_no - 1], page_padding(page_no), db)->Ok_0.header.kind
            == PageType::InteriorTable,
        page_spec(pages[page_no - 1], page_padding(page_no), db)->Ok_0.cells.len() == 2,
    ensures
        ({
            let p = page_spec(pages[page_no - 1], page_padding(page_no), db)->Ok_0;
            let f = (fuel - 1) as nat;
            let first = tree_rows(pages, db, p.cells[0]->InteriorTable_left_child as int, f);
            let second = tree_rows(pages, db, p.cells[1]->InteriorTable_left_child as int, f);
            let last = tree_rows(pages, db, p.header.page_number->Some_0 as int, f);
            first is Ok && second is Ok && last is Ok ==> tree_rows(pages, db, page_no, fuel)
                == Ok::<Seq<Seq<SerialView>>, DbError>(first->Ok_0 + second->Ok_0 + last->Ok_0)
        }),
{
    let buf = pages[page_no - 1];
    let padding = page_padding(page_no);
    let p = page_spec(buf, padding, db)->Ok_0;
    let f = (fuel - 1) as nat;
    lemma_cells_spec(buf, p.cell_pointers, PageType::InteriorTable, db);
    assert(p.cells[0] is InteriorTable);
    assert(p.cells[1] is InteriorTable);
    let first = tree_rows(pages, db, p.cells[0]->InteriorTable_left_child as int, f);
    let second = tree_rows(pages, db, p.cells[1]->InteriorTable_left_child as int, f);
    let last = tree_rows(pages, db, p.header.page_number->Some_0 as int, f);
    if first is Ok && second is Ok && last is Ok {
        assert(p.cells.drop_first().drop_first().len() == 0);
        assert(cells_rows(pages, db, p.cells.drop_first().drop_first(), f) == Ok::<
            Seq<Seq<SerialView>>,
            DbError,
        >(seq![]));
        assert(second->Ok_0 + seq![] == second->Ok_0);
        assert(p.cells.drop_first()[0] == p.cells[1]);
        assert(cells_rows(pages, db, p.cells.drop_first(), f) == Ok::<
            Seq<Seq<SerialView>>,
            DbError,
        >(second->Ok_0));
        assert(cells_rows(pages, db, p.cells, f) == Ok::<Seq<Seq<SerialView>>, DbError>(
            first->Ok_0 + second->Ok_0,
        ));
        assert(tree_rows(pages, db, page_no, fuel) == prepend_rows(
            first->Ok_0 + second->Ok_0,
            last,
        ));
    }
}

/// Appends to `out` the rows under page `page_no`, in key order.
fn collect_rows(
    pages: &Vec<Vec<u8>>,
    db: &DatabaseHeader,
    page_no: u32,
    fuel: usize,
    out: &mut Vec<Record>,
) -> (r: Result<(), DbError>)
    ensures
        match tree_rows(pages_view(pages), *db, page_no as int, fuel as nat) {
            Ok(rows) => r is Ok && rows_view(final(out)@) == rows_view(old(out)@) + rows,
            Err(e) => r == Err::<(), DbError>(e),
        },
    decreases fuel,
{
    let ghost pv = pages_view(pages);
    if fuel == 0 || page_no < 1 || page_no as usize > pages.len() {
        return Err(DbError::Format);
    }
    let padding: usize = if page_no == 1 {
        100
    } else {
        0
    };
    let idx = (page_no - 1) as usize;
    assert(pv[idx as int] == pages@[idx as int]@);
    let page = match Page::from_bytes_with_padding(pages[idx].as_slice(), db, padding) {
        Ok(p) => p,
        Err(e) => {
            return Err(e);
        },
    };
    let Page { header, cell_pointers: _, cells } = page;
    let mut cells = cells;
    let ghost all = cells@.map_values(|c: Cell| c@);
    let ghost out0 = rows_view(out@);
    let ghost mut acc: Seq<Seq<SerialView>> = seq![];
    let f = fuel - 1;
    proof {
        let whole = cells_rows(pv, *db, all, f as nat);
        if whole is Ok {
            assert(acc + whole->Ok_0 == whole->Ok_0);
        }
        assert(rows_view(out@) == out0 + acc);
    }
    assert(tree_rows(pv, *db, page_no as int, fuel as nat) == after_cells(
        pv,
        *db,
        header.kind,
        header.page_number,
        cells_rows(pv, *db, all, f as nat),
        f as nat,
    ));
    while cells.len() > 0
        invariant
            tree_rows(pv, *db, page_no as int, fuel as nat) == after_cells(
                pv,
                *db,
                header.kind,
                header.page_number,
                cells_rows(pv, *db, all, f as nat),
                f as nat,
            ),
            f == fuel - 1,
            pv == pages_view(pages),
            rows_view(out@) == out0 + acc,
            cells_rows(pv, *db, all, f as nat) == prepend_rows(
                acc,
                cells_rows(pv, *db, cells@.map_values(|c: Cell| c@), f as nat),
            ),
        decreases cells.len(),
    {
        let ghost before = cells@.map_values(|c: Cell| c@);
        let ghost rest_cells = before.drop_first();
        let cell = cells.remove(0);
        assert(cells@.map_values(|c: Cell| c@) == rest_cells);
        let ghost rest = cells_rows(pv, *db, rest_cells, f as nat);
        let ghost out_before = rows_view(out@);
        match cell {
            Cell::LeafTable { payload, .. } => {
                let ghost row = payload@;
                out.push(payload);
                assert(rows_view(out@) == out_before.push(row));
                proof {
                    if rest is Ok {
                        assert(acc + (seq![row] + rest->Ok_0) == acc.push(row) + rest->Ok_0);
                    }
                    assert(out0 + acc.push(row) == (out0 + acc).push(row));
                    acc = acc.push(row);
                }
            },
            Cell::LeafIndex { payload, .. } => {
                let ghost row = payload@;
                out.push(payload);
                assert(rows_view(out@) == out_before.push(row));
                proof {
                    if rest is Ok {
                        assert(acc + (seq![row] + rest->Ok_0) == acc.push(row) + rest->Ok_0);
                    }
                    assert(out0 + acc.push(row) == (out0 + acc).push(row));
                    acc = acc.push(row);
                }
            },
            Cell::InteriorTable { left_child, .. } => {
                match collect_rows(pages, db, left_child, f, out) {
                    Ok(()) => {},
                    Err(e) => {
                        return Err(e);
                    },
                }
                proof {
                    let child = tree_rows(pv, *db, left_child as int, f as nat)->Ok_0;
                    if rest is Ok {
                        assert(acc + (child + rest->Ok_0) == (acc + child) + rest->Ok_0);
                    }
                    assert(out0 + (acc + child) == (out0 + acc) + child);
                    acc = acc + child;
                }
            },
            Cell::InteriorIndex { left_child, payload, .. } => {
                match collect_rows(pages, db, left_child, f, out) {
                    Ok(()) => {},
                    Err(e) => {
                        return Err(e);
                    },
                }
                let ghost mid = rows_view(out@);
                let ghost row = payload@;
                out.push(payload);
                assert(rows_view(out@) == mid.push(row));
                proof {
                    let child = tree_rows(pv, *db, left_child as int, f as nat)->Ok_0;
                    if rest is Ok {
                        assert(acc + (child.push(row) + rest->Ok_0) == (acc + child.push(row))
                            + rest->Ok_0);
                    }
                    assert(out0 + (acc + child.push(row)) == ((out0 + acc) + child).push(row));
                    acc = acc + child.push(row);
                }
            },
        }
    }
    assert(cells@.map_values(|c: Cell| c@) == Seq::<CellView>::empty());
    assert(acc + seq![] == acc);
    match header.kind {
        PageType::InteriorIndex | PageType::InteriorTable => {
            let right = match header.page_number {
                Some(n) => n,
                None => {
                    return Err(DbError::Format);
                },
            };
            let ghost mid = rows_view(out@);
            match collect_rows(pages, db, right, f, out) {
                Ok(()) => {},
                Err(e) => {
                    return Err(e);
                },
            }
            proof {
                let last = tree_rows(pv, *db, right as int, f as nat)->Ok_0;
                assert(out0 + (acc + last) == (out0 + acc) + last);
            }
            Ok(())
        },
        _ => Ok(()),
    }
}

/// The rows of the B-tree rooted at page `root`, in key order: every leaf
/// record once, and on index trees the records of interior cells between
/// the subtrees they separate.
pub fn tree_records(pages: &Vec<Vec<u8>>, db: &DatabaseHeader, root: u32) -> (r: Result<
    Vec<Record>,
    DbError,
>)
    ensures
        match tree_rows(pages_view(pages), *db, root as int, pages@.len()) {
            Ok(rows) => r is Ok && rows_view(r->Ok_0@) == rows,
            Err(e) => r == Err::<Vec<Record>, DbError>(e),
        },
{
    let mut out: Vec<Record> = Vec::new();
    match collect_rows(pages, db, root, pages.len(), &mut out) {
        Ok(()) => {
            assert(rows_view(Seq::<Record>::empty()) + tree_rows(
                pages_view(pages),
                *db,
                root as int,
                pages@.len(),
            )->Ok_0 == tree_rows(pages_view(pages), *db, root as int, pages@.len())->Ok_0);
            Ok(out)
        },
        Err(e) => Err(e),
    }
}

} // verus!
