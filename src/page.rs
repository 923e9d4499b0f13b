use crate::btree::{cell_spec, lemma_cell_shape, shape_matches, Cell, CellView};
use crate::error::DbError;
use crate::header::{be_u16, be_u32, read_u16_be, read_u32_be, DatabaseHeader};
use vstd::prelude::*;
use vstd::slice::slice_subrange;

verus! {

/// The four kinds of B-tree page.
#[derive(Debug, Clone, Copy, PartialEq, Eq, Structural)]
pub enum PageType {
    InteriorIndex,
    InteriorTable,
    LeafIndex,
    LeafTable,
}

/// The header at the start of every B-tree page.
#[derive(Debug, Clone, Copy, PartialEq, Eq, Structural)]
pub struct PageHeader {
    pub kind: PageType,
    pub first_freeblock: u16,
    pub number_of_cells: u16,
    pub first_cell_content: u16,
    pub fragmented_free_bytes: u8,
    /// The rightmost child, on interior pages only.
    pub page_number: Option<u32>,
}

/// A decoded page: its header, the offsets of its cells in key order, and
/// the cells themselves.
#[derive(Debug)]
pub struct Page {
    pub header: PageHeader,
    pub cell_pointers: Vec<u16>,
    pub cells: Vec<Cell>,
}

/// The page kind that a tag byte names.
pub open spec fn kind_of_tag(tag: u8) -> Option<PageType> {
    if tag == 0x02 {
        Some(PageType::InteriorIndex)
    } else if tag == 0x05 {
        Some(PageType::InteriorTable)
    } else if tag == 0x0a {
        Some(PageType::LeafIndex)
    } else if tag == 0x0d {
        Some(PageType::LeafTable)
    } else {
        None
    }
}

pub open spec fn is_interior(kind: PageType) -> bool {
    kind == PageType::InteriorIndex || kind == PageType::InteriorTable
}

/// Length of the header of a page of this kind.
pub open spec fn header_len(kind: PageType) -> nat {
    if is_interior(kind) {
        12
    } else {
        8
    }
}

/// The header at the start of `b`.
pub open spec fn page_header_spec(b: Seq<u8>) -> Result<PageHeader, DbError> {
    if b.len() < 1 || kind_of_tag(b[0]) is None {
        Err(DbError::Format)
    } else {
        let kind = kind_of_tag(b[0])->Some_0;
        if b.len() < header_len(kind) {
            Err(DbError::Format)
        } else {
            Ok(
                PageHeader {
                    kind,
                    first_freeblock: be_u16(b, 1) as u16,
                    number_of_cells: be_u16(b, 3) as u16,
                    first_cell_content: be_u16(b, 5) as u16,
                    fragmented_free_bytes: b[7],
                    page_number: if is_interior(kind) {
                        Some(be_u32(b, 8) as u32)
                    } else {
                        None
                    },
                },
            )
        }
    }
}

/// The `n` cell offsets that follow a header ending at `buf[start]`.
pub open spec fn pointers_spec(buf: Seq<u8>, start: int, n: nat) -> Seq<u16> {
    Seq::new(n, |i: int| be_u16(buf, start + 2 * i) as u16)
}

/// The cells at the offsets `ptrs`, in order; the first that fails decides
/// the error.
pub open spec fn cells_spec(
    buf: Seq<u8>,
    ptrs: Seq<u16>,
    kind: PageType,
    db: DatabaseHeader,
) -> Result<Seq<CellView>, DbError>
    decreases ptrs.len(),
{
    if ptrs.len() == 0 {
        Ok(seq![])
    } else {
        match cell_spec(buf, ptrs[0] as int, kind, db) {
            Err(e) => Err(e),
            Ok(c) => match cells_spec(buf, ptrs.drop_first(), kind, db) {
                Ok(rest) => Ok(seq![c] + rest),
                Err(e) => Err(e),
            },
        }
    }
}

/// A decoded page as its header, cell offsets and cells.
pub struct PageView {
    pub header: PageHeader,
    pub cell_pointers: Seq<u16>,
    pub cells: Seq<CellView>,
}

impl View for Page {
    type V = PageView;

    open spec fn view(&self) -> PageView {
        PageView {
            header: self.header,
            cell_pointers: self.cell_pointers@,
            cells: self.cells@.map_values(|c: Cell| c@),
        }
    }
}

/// The page in `buf` whose header starts at `buf[padding]`; cell offsets
/// count from `buf[0]`.
pub open spec fn page_spec(buf: Seq<u8>, padding: int, db: DatabaseHeader) -> Result<
    PageView,
    DbError,
> {
    if padding > buf.len() {
        Err(DbError::Format)
    } else {
        match page_header_spec(buf.subrange(padding, buf.len() as int)) {
            Err(e) => Err(e),
            Ok(header) => {
                let start = padding + header_len(header.kind);
                let n = header.number_of_cells as nat;
                if start + 2 * n > buf.len() {
                    Err(DbError::Format)
                } else {
                    let ptrs = pointers_spec(buf, start, n);
                    match cells_spec(buf, ptrs, header.kind, db) {
                        Err(e) => Err(e),
                        Ok(cells) => Ok(PageView { header, cell_pointers: ptrs, cells }),
                    }
                }
            },
        }
    }
}

impl PageHeader {
    /// Decodes the header at the start of `page_buf`. Fails on an unknown
    /// page kind or a buffer too short for the header.
    pub fn from_bytes(page_buf: &[u8]) -> (r: Result<Self, DbError>)
        ensures
            r == page_header_spec(page_buf@),
    {
        if page_buf.len() < 1 {
            return Err(DbError::Format);
        }
        let tag = page_buf[0];
        let kind = if tag == 0x02 {
            PageType::InteriorIndex
        } else if tag == 0x05 {
            PageType::InteriorTable
        } else if tag == 0x0a {
            PageType::LeafIndex
        } else if tag == 0x0d {
            PageType::LeafTable
        } else {
            return Err(DbError::Format);
        };
        let interior = match kind {
            PageType::InteriorIndex | PageType::InteriorTable => true,
            _ => false,
        };
        let needed: usize = if interior {
            12
        } else {
            8
        };
        if page_buf.len() < needed {
            return Err(DbError::Format);
        }
        let page_number = if interior {
            Some(read_u32_be(page_buf, 8))
        } else {
            None
        };
        Ok(
            PageHeader {
                kind,
                first_freeblock: read_u16_be(page_buf, 1),
                number_of_cells: read_u16_be(page_buf, 3),
                first_cell_content: read_u16_be(page_buf, 5),
                fragmented_free_bytes: page_buf[7],
                page_number,
            },
        )
    }
}

impl Page {
    /// Decodes a page whose header starts at its first byte.
    pub fn from_bytes(buf: &[u8], db_header: &DatabaseHeader) -> (r: Result<Page, DbError>)
        ensures
            match page_spec(buf@, 0, *db_header) {
                Ok(p) => r is Ok && r->Ok_0@ == p,
                Err(e) => r == Err::<Page, DbError>(e),
            },
    {
        Page::from_bytes_with_padding(buf, db_header, 0)
    }

    /// Decodes a page whose header starts at `buf[padding]` (100 on the first
    /// page, after the file header).
    pub fn from_bytes_with_padding(buf: &[u8], db_header: &DatabaseHeader, padding: usize) -> (r:
        Result<Page, DbError>)
        ensures
            match page_spec(buf@, padding as int, *db_header) {
                Ok(p) => r is Ok && r->Ok_0@ == p,
                Err(e) => r == Err::<Page, DbError>(e),
            },
    {
        if padding > buf.len() {
            return Err(DbError::Format);
        }
        let header = match PageHeader::from_bytes(slice_subrange(buf, padding, buf.len())) {
            Ok(h) => h,
            Err(e) => {
                return Err(e);
            },
        };
        let cell_pointers = match Page::parse_cell_pointer_array(buf, &header, padding) {
            Ok(p) => p,
            Err(e) => {
                return Err(e);
            },
        };
        let ghost ptrs = cell_pointers@;
        let mut cells: Vec<Cell> = Vec::new();
        let mut i: usize = 0;
        assert(ptrs.subrange(0, ptrs.len() as int) == ptrs);
        assert(cells@.map_values(|c: Cell| c@) == Seq::<CellView>::empty());
        proof {
            let all = cells_spec(buf@, ptrs, header.kind, *db_header);
            if all is Ok {
                assert(Seq::<CellView>::empty() + all->Ok_0 == all->Ok_0);
            }
        }
        while i < cell_pointers.len()
            invariant
                page_spec(buf@, padding as int, *db_header) == match cells_spec(
                    buf@,
                    ptrs,
                    header.kind,
                    *db_header,
                ) {
                    Err(e) => Err(e),
                    Ok(cells) => Ok(PageView { header, cell_pointers: ptrs, cells }),
                },
                i <= ptrs.len(),
                ptrs == cell_pointers@,
                cells_spec(buf@, ptrs, header.kind, *db_header) == prepend_cells(
                    cells@.map_values(|c: Cell| c@),
                    cells_spec(buf@, ptrs.subrange(i as int, ptrs.len() as int), header.kind, *db_header),
                ),
            decreases ptrs.len() - i,
        {
            let ghost rest = ptrs.subrange(i as int, ptrs.len() as int);
            assert(rest.drop_first() == ptrs.subrange(i + 1, ptrs.len() as int));
            let cell = Cell::from_bytes(buf, cell_pointers[i] as u64, &header, db_header);
            match cell {
                Err(e) => {
                    return Err(e);
                },
                Ok(c) => {
                    let ghost before = cells@.map_values(|c: Cell| c@);
                    let ghost tail = cells_spec(buf@, rest.drop_first(), header.kind, *db_header);
                    cells.push(c);
                    assert(cells@.map_values(|c: Cell| c@) == before.push(c@));
                    proof {
                        if tail is Ok {
                            let t = tail->Ok_0;
                            assert(before + (seq![c@] + t) == before.push(c@) + t);
                        }
                    }
                },
            }
            i += 1;
        }
        assert(ptrs.subrange(i as int, ptrs.len() as int).len() == 0);
        assert(cells@.map_values(|c: Cell| c@) + seq![] == cells@.map_values(|c: Cell| c@));
        Ok(Page { header, cell_pointers, cells })
    }

    /// Reads the cell offsets that follow the page header.
    fn parse_cell_pointer_array(buf: &[u8], header: &PageHeader, page_padding: usize) -> (r:
        Result<Vec<u16>, DbError>)
        requires
            page_padding <= buf@.len(),
        ensures
            ({
                let start = page_padding + header_len(header.kind);
                let n = header.number_of_cells as nat;
                if start + 2 * n > buf@.len() {
                    r == Err::<Vec<u16>, DbError>(DbError::Format)
                } else {
                    r is Ok && r->Ok_0@ == pointers_spec(buf@, start, n)
                }
            }),
    {
        let len = buf.len();
        let hl: usize = match header.kind {
            PageType::InteriorIndex | PageType::InteriorTable => 12,
            _ => 8,
        };
        let n = header.number_of_cells as usize;
        if hl > len - page_padding || 2 * n > len - page_padding - hl {
            return Err(DbError::Format);
        }
        let start = page_padding + hl;
        let mut out: Vec<u16> = Vec::new();
        let mut i: usize = 0;
        while i < n
            invariant
                len == buf@.len(),
                start + 2 * n <= len,
                i <= n,
                out@.len() == i,
                forall|j: int| 0 <= j < i ==> out@[j] == pointers_spec(buf@, start as int, n as nat)[j],
            decreases n - i,
        {
            out.push(read_u16_be(buf, start + 2 * i));
            i += 1;
        }
        assert(out@ == pointers_spec(buf@, start as int, n as nat));
        Ok(out)
    }
}

/// A page's cells are the cells at its offsets, one for each, all of the
/// shape of the page's kind.
pub proof fn lemma_cells_spec(buf: Seq<u8>, ptrs: Seq<u16>, kind: PageType, db: DatabaseHeader)
    requires
        cells_spec(buf, ptrs, kind, db) is Ok,
    ensures
        ({
            let cells = cells_spec(buf, ptrs, kind, db)->Ok_0;
            &&& cells.len() == ptrs.len()
            &&& forall|i: int|
                0 <= i < ptrs.len() ==> cell_spec(buf, ptrs[i] as int, kind, db) == Ok::<
                    CellView,
                    DbError,
                >(#[trigger] cells[i]) && shape_matches(cells[i], kind)
        }),
    decreases ptrs.len(),
{
    if ptrs.len() > 0 {
        lemma_cell_shape(buf, ptrs[0] as int, kind, db);
        lemma_cells_spec(buf, ptrs.drop_first(), kind, db);
        let cells = cells_spec(buf, ptrs, kind, db)->Ok_0;
        let rest = cells_spec(buf, ptrs.drop_first(), kind, db)->Ok_0;
        assert forall|i: int| 1 <= i < ptrs.len() implies cells[i] == rest[i - 1] by {}
        assert forall|i: int| 1 <= i < ptrs.len() implies ptrs[i] == ptrs.drop_first()[i - 1] by {}
    }
}

/// `done` followed by the cells of `rest`, if `rest` succeeded.
pub open spec fn prepend_cells(
    done: Seq<CellView>,
    rest: Result<Seq<CellView>, DbError>,
) -> Result<Seq<CellView>, DbError> {
    match rest {
        Ok(r) => Ok(done + r),
        Err(e) => Err(e),
    }
}

} // verus!
