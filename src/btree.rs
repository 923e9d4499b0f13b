use crate::error::DbError;
use crate::header::{be_u32, read_u32_be, DatabaseHeader, TextEncoding};
use crate::page::{PageHeader, PageType};
use crate::record::{record_spec, varint_at, Record, SerialView};
use crate::varint::{varint_of, varint_size, varint_value, Varint};
use vstd::prelude::*;
use vstd::slice::slice_subrange;

verus! {

/// One entry of a B-tree page; its shape follows the page's kind.
#[derive(Debug, Clone)]
pub enum Cell {
    LeafTable { size: Varint, row_id: Varint, payload: Record, overflow_page: Option<u32> },
    InteriorTable { left_child: u32, key: Varint },
    LeafIndex { size: Varint, payload: Record, overflow_page: Option<u32> },
    InteriorIndex { left_child: u32, size: Varint, payload: Record, overflow_page: Option<u32> },
}

/// What a cell holds: its varints whole (value and byte length), and for a
/// payload the record's header-length varint and its values.
pub enum CellView {
    LeafTable {
        size: Varint,
        row_id: Varint,
        header_size: Varint,
        payload: Seq<SerialView>,
        overflow_page: Option<u32>,
    },
    InteriorTable { left_child: u32, key: Varint },
    LeafIndex {
        size: Varint,
        header_size: Varint,
        payload: Seq<SerialView>,
        overflow_page: Option<u32>,
    },
    InteriorIndex {
        left_child: u32,
        size: Varint,
        header_size: Varint,
        payload: Seq<SerialView>,
        overflow_page: Option<u32>,
    },
}

impl View for Cell {
    type V = CellView;

    open spec fn view(&self) -> CellView {
        match self {
            Cell::LeafTable { size, row_id, payload, overflow_page } => CellView::LeafTable {
                size: *size,
                row_id: *row_id,
                header_size: payload.header_size,
                payload: payload@,
                overflow_page: *overflow_page,
            },
            Cell::InteriorTable { left_child, key } => CellView::InteriorTable {
                left_child: *left_child,
                key: *key,
            },
            Cell::LeafIndex { size, payload, overflow_page } => CellView::LeafIndex {
                size: *size,
                header_size: payload.header_size,
                payload: payload@,
                overflow_page: *overflow_page,
            },
            Cell::InteriorIndex { left_child, size, payload, overflow_page } =>
                CellView::InteriorIndex {
                left_child: *left_child,
                size: *size,
                header_size: payload.header_size,
                payload: payload@,
                overflow_page: *overflow_page,
            },
        }
    }
}

/// The bytes of `buf` from `at` on.
pub open spec fn tail(buf: Seq<u8>, at: int) -> Seq<u8> {
    buf.subrange(at, buf.len() as int)
}

/// Bytes of a page that cells may use.
pub open spec fn usable_size(db: DatabaseHeader) -> int {
    db.page_size - db.page_reserved_bytes
}

/// Most payload bytes that a cell keeps in its page.
pub open spec fn max_local(u: int, leaf_table: bool) -> int {
    if leaf_table {
        u - 35
    } else {
        (u - 12) * 64 / 255 - 23
    }
}

/// Fewest payload bytes that a cell whose payload overflows keeps in its page.
pub open spec fn min_local(u: int) -> int {
    (u - 12) * 32 / 255 - 23
}

/// Payload bytes kept in the page for a payload of `p` bytes.
pub open spec fn local_size(p: int, u: int, leaf_table: bool) -> int {
    if p <= max_local(u, leaf_table) {
        p
    } else {
        let k = min_local(u) + (p - min_local(u)) % (u - 4);
        if k <= max_local(u, leaf_table) {
            k
        } else {
            min_local(u)
        }
    }
}

/// The record (header-length varint and values) of a `p`-byte payload
/// starting at `buf[start]`, and the first
/// overflow page where the payload does not fit in the page. The record is
/// read from the bytes kept in the page; the overflow page number follows
/// them. The in-page share is computed as the file format defines it, which
/// takes a usable page size of at least 480 bytes; a smaller one is
/// malformed.
pub open spec fn payload_spec(
    buf: Seq<u8>,
    start: int,
    p: int,
    u: int,
    leaf_table: bool,
    enc: TextEncoding,
) -> Result<((Varint, Seq<SerialView>), Option<u32>), DbError> {
    let local = local_size(p, u, leaf_table);
    let overflows = p > max_local(u, leaf_table);
    let end = start + local;
    if p < 0 || u < 480 || end > buf.len() || (overflows && end + 4 > buf.len()) {
        Err(DbError::Format)
    } else {
        match record_spec(buf.subrange(0, end), start, enc) {
            Err(e) => Err(e),
            Ok(r) => Ok(
                (
                    r,
                    if overflows {
                        Some(be_u32(buf, end) as u32)
                    } else {
                        None
                    },
                ),
            ),
        }
    }
}

/// The cell at `buf[pos]` on a page of kind `kind`.
#[verifier::opaque]
pub open spec fn cell_spec(buf: Seq<u8>, pos: int, kind: PageType, db: DatabaseHeader) -> Result<
    CellView,
    DbError,
> {
    let u = usable_size(db);
    let enc = db.text_encoding;
    if pos < 0 || pos >= buf.len() {
        Err(DbError::Format)
    } else {
        match kind {
            PageType::LeafTable => {
                let s = tail(buf, pos);
                let at = pos + varint_size(s);
                if at >= buf.len() {
                    Err(DbError::Format)
                } else {
                    let k = tail(buf, at);
                    match payload_spec(buf, at + varint_size(k), varint_value(s), u, true, enc) {
                        Err(e) => Err(e),
                        Ok(pl) => Ok(
                            CellView::LeafTable {
                                size: varint_of(s),
                                row_id: varint_of(k),
                                header_size: pl.0.0,
                                payload: pl.0.1,
                                overflow_page: pl.1,
                            },
                        ),
                    }
                }
            },
            PageType::InteriorTable => {
                if pos + 4 >= buf.len() {
                    Err(DbError::Format)
                } else {
                    Ok(
                        CellView::InteriorTable {
                            left_child: be_u32(buf, pos) as u32,
                            key: varint_of(tail(buf, pos + 4)),
                        },
                    )
                }
            },
            PageType::LeafIndex => {
                let s = tail(buf, pos);
                match payload_spec(buf, pos + varint_size(s), varint_value(s), u, false, enc) {
                    Err(e) => Err(e),
                    Ok(pl) => Ok(
                        CellView::LeafIndex {
                            size: varint_of(s),
                            header_size: pl.0.0,
                            payload: pl.0.1,
                            overflow_page: pl.1,
                        },
                    ),
                }
            },
            PageType::InteriorIndex => {
                if pos + 4 >= buf.len() {
                    Err(DbError::Format)
                } else {
                    let s = tail(buf, pos + 4);
                    match payload_spec(
                        buf,
                        pos + 4 + varint_size(s),
                        varint_value(s),
                        u,
                        false,
                        enc,
                    ) {
                        Err(e) => Err(e),
                        Ok(pl) => Ok(
                            CellView::InteriorIndex {
                                left_child: be_u32(buf, pos) as u32,
                                size: varint_of(s),
                                header_size: pl.0.0,
                                payload: pl.0.1,
                                overflow_page: pl.1,
                            },
                        ),
                    }
                }
            },
        }
    }
}

/// Whether a cell has the shape that pages of kind `kind` hold.
pub open spec fn shape_matches(c: CellView, kind: PageType) -> bool {
    match c {
        CellView::LeafTable { .. } => kind == PageType::LeafTable,
        CellView::InteriorTable { .. } => kind == PageType::InteriorTable,
        CellView::LeafIndex { .. } => kind == PageType::LeafIndex,
        CellView::InteriorIndex { .. } => kind == PageType::InteriorIndex,
    }
}

/// Every cell that decodes has the shape of its page's kind.
pub proof fn lemma_cell_shape(buf: Seq<u8>, pos: int, kind: PageType, db: DatabaseHeader)
    ensures
        cell_spec(buf, pos, kind, db) is Ok ==> shape_matches(
            cell_spec(buf, pos, kind, db)->Ok_0,
            kind,
        ),
{
    reveal(cell_spec);
}

/// Decodes the record of a `p`-byte payload at `buf[start]`, and the first
/// overflow page if the payload does not fit in the page.
fn decode_payload(
    buf: &[u8],
    start: usize,
    p: i64,
    db_header: &DatabaseHeader,
    leaf_table: bool,
) -> (r: Result<(Record, Option<u32>), DbError>)
    requires
        start <= buf@.len(),
    ensures
        match payload_spec(
            buf@,
            start as int,
            p as int,
            usable_size(*db_header),
            leaf_table,
            db_header.text_encoding,
        ) {
            Ok(pl) => r is Ok && r->Ok_0.0.header_size == pl.0.0 && r->Ok_0.0@ == pl.0.1
                && r->Ok_0.1 == pl.1,
            Err(e) => r == Err::<(Record, Option<u32>), DbError>(e),
        },
{
    let u: i64 = db_header.page_size as i64 - db_header.page_reserved_bytes as i64;
    if p < 0 || u < 480 {
        return Err(DbError::Format);
    }
    let max: i64 = if leaf_table {
        u - 35
    } else {
        (u - 12) * 64 / 255 - 23
    };
    let min: i64 = (u - 12) * 32 / 255 - 23;
    let local: i64 = if p <= max {
        p
    } else {
        let k = min + (p - min) % (u - 4);
        if k <= max {
            k
        } else {
            min
        }
    };
    let overflows = p > max;
    let room = buf.len() - start;
    if local as u64 > room as u64 || (overflows && local as u64 + 4 > room as u64) {
        return Err(DbError::Format);
    }
    let end = start + local as usize;
    let record = match Record::from_bytes(slice_subrange(buf, 0, end), start, db_header) {
        Ok(rec) => rec,
        Err(e) => {
            return Err(e);
        },
    };
    let overflow_page = if overflows {
        Some(read_u32_be(buf, end))
    } else {
        None
    };
    Ok((record, overflow_page))
}

impl Cell {
    /// Decodes the cell at `page_buf[position]` on a page with the given
    /// header.
    pub fn from_bytes(
        page_buf: &[u8],
        position: u64,
        page_header: &PageHeader,
        db_header: &DatabaseHeader,
    ) -> (r: Result<Self, DbError>)
        ensures
            match cell_spec(page_buf@, position as int, page_header.kind, *db_header) {
                Ok(c) => r is Ok && r->Ok_0@ == c,
                Err(e) => r == Err::<Cell, DbError>(e),
            },
    {
        reveal(cell_spec);
        let len = page_buf.len();
        if position >= len as u64 {
            return Err(DbError::Format);
        }
        let pos = position as usize;
        match page_header.kind {
            PageType::LeafTable => {
                let size = varint_at(page_buf, pos);
                let at = pos + size.size as usize;
                if at >= len {
                    return Err(DbError::Format);
                }
                let row_id = varint_at(page_buf, at);
                let start = at + row_id.size as usize;
                match decode_payload(page_buf, start, size.value, db_header, true) {
                    Ok((payload, overflow_page)) => Ok(
                        Cell::LeafTable { size, row_id, payload, overflow_page },
                    ),
                    Err(e) => Err(e),
                }
            },
            PageType::InteriorTable => {
                if len - pos <= 4 {
                    return Err(DbError::Format);
                }
                let left_child = read_u32_be(page_buf, pos);
                let key = varint_at(page_buf, pos + 4);
                Ok(Cell::InteriorTable { left_child, key })
            },
            PageType::LeafIndex => {
                let size = varint_at(page_buf, pos);
                let start = pos + size.size as usize;
                match decode_payload(page_buf, start, size.value, db_header, false) {
                    Ok((payload, overflow_page)) => Ok(
                        Cell::LeafIndex { size, payload, overflow_page },
                    ),
                    Err(e) => Err(e),
                }
            },
            PageType::InteriorIndex => {
                if len - pos <= 4 {
                    return Err(DbError::Format);
                }
                let left_child = read_u32_be(page_buf, pos);
                let size = varint_at(page_buf, pos + 4);
                let start = pos + 4 + size.size as usize;
                match decode_payload(page_buf, start, size.value, db_header, false) {
                    Ok((payload, overflow_page)) => Ok(
                        Cell::InteriorIndex { left_child, size, payload, overflow_page },
                    ),
                    Err(e) => Err(e),
                }
            },
        }
    }
}

} // verus!
