use sqlite_reader::btree::Cell;
use sqlite_reader::database::Database;
use sqlite_reader::error::DbError;
use sqlite_reader::header::DatabaseHeader;
use sqlite_reader::page::{Page, PageHeader, PageType};
use sqlite_reader::parser::{create_table_columns, execute, parse_command, QueryOutput};
use sqlite_reader::record::RecordSerial;
use sqlite_reader::schema_table::Schema;
use sqlite_reader::table::Table;
use sqlite_reader::traversal::tree_records;

const PAGE: usize = 512;

fn file_header(pages: u32) -> [u8; 100] {
    let mut b = [0u8; 100];
    b[..16].copy_from_slice(b"SQLite format 3\0");
    b[16] = (PAGE >> 8) as u8;
    b[17] = (PAGE & 0xff) as u8;
    b[28..32].copy_from_slice(&pages.to_be_bytes());
    b[56..60].copy_from_slice(&1u32.to_be_bytes());
    b
}

fn db_header() -> DatabaseHeader {
    DatabaseHeader::from_bytes(&file_header(1))
}

/// A record of small values: each entry is a serial type and its content.
fn record(values: &[(u8, Vec<u8>)]) -> Vec<u8> {
    let mut out = vec![(values.len() + 1) as u8];
    for (t, _) in values {
        out.push(*t);
    }
    for (_, c) in values {
        out.extend_from_slice(c);
    }
    out
}

fn text(s: &str) -> (u8, Vec<u8>) {
    ((13 + 2 * s.len()) as u8, s.as_bytes().to_vec())
}

fn small_int(v: i8) -> (u8, Vec<u8>) {
    (1, vec![v as u8])
}

fn leaf_cell(row_id: u8, rec: &[u8]) -> Vec<u8> {
    let mut c = vec![rec.len() as u8, row_id];
    c.extend_from_slice(rec);
    c
}

/// A page whose header starts at `padding`, holding `cells` in order.
fn page(kind: u8, padding: usize, cells: &[Vec<u8>], rightmost: Option<u32>) -> Vec<u8> {
    let mut buf = vec![0u8; PAGE];
    let mut end = PAGE;
    let mut pointers = Vec::new();
    for c in cells {
        end -= c.len();
        buf[end..end + c.len()].copy_from_slice(c);
        pointers.push(end as u16);
    }
    buf[padding] = kind;
    buf[padding + 3..padding + 5].copy_from_slice(&(cells.len() as u16).to_be_bytes());
    buf[padding + 5..padding + 7].copy_from_slice(&(end as u16).to_be_bytes());
    let mut at = padding + 8;
    if let Some(r) = rightmost {
        buf[padding + 8..padding + 12].copy_from_slice(&r.to_be_bytes());
        at = padding + 12;
    }
    for p in pointers {
        buf[at..at + 2].copy_from_slice(&p.to_be_bytes());
        at += 2;
    }
    buf
}

fn leaf(rows: &[i8]) -> Vec<u8> {
    let cells: Vec<Vec<u8>> = rows
        .iter()
        .map(|v| leaf_cell(*v as u8, &record(&[small_int(*v)])))
        .collect();
    page(0x0d, 0, &cells, None)
}

fn interior_cell(child: u32, key: u8) -> Vec<u8> {
    let mut c = child.to_be_bytes().to_vec();
    c.push(key);
    c
}

fn values(rows: &[sqlite_reader::record::Record]) -> Vec<i8> {
    rows.iter()
        .map(|r| match r.content[0] {
            RecordSerial::I8(v) => v,
            ref other => panic!("{:?}", other),
        })
        .collect()
}

#[test]
fn page_header_kinds_and_errors() {
    let p = leaf(&[1]);
    let h = PageHeader::from_bytes(&p).unwrap();
    assert_eq!(h.kind, PageType::LeafTable);
    assert_eq!(h.number_of_cells, 1);
    assert_eq!(h.page_number, None);
    let i = page(0x05, 0, &[interior_cell(3, 1)], Some(9));
    let hi = PageHeader::from_bytes(&i).unwrap();
    assert_eq!(hi.kind, PageType::InteriorTable);
    assert_eq!(hi.page_number, Some(9));
    assert_eq!(PageHeader::from_bytes(&[0x07, 0, 0, 0, 0, 0, 0, 0]).unwrap_err(), DbError::Format);
    assert_eq!(PageHeader::from_bytes(&[0x0d, 0, 0]).unwrap_err(), DbError::Format);
    assert_eq!(PageHeader::from_bytes(&[0x05, 0, 0, 0, 0, 0, 0, 0, 0]).unwrap_err(), DbError::Format);
}

#[test]
fn single_leaf_page_rows_in_pointer_order() {
    let pages = vec![vec![0u8; PAGE], leaf(&[5, 3, 9])];
    let rows = tree_records(&pages, &db_header(), 2).unwrap();
    assert_eq!(rows.len(), 3);
    assert_eq!(values(&rows), vec![5, 3, 9]);
    let p = Page::from_bytes(&pages[1], &db_header()).unwrap();
    assert_eq!(p.cell_pointers.len(), 3);
    match &p.cells[0] {
        Cell::LeafTable { row_id, overflow_page, .. } => {
            assert_eq!(row_id.value, 5);
            assert_eq!(*overflow_page, None);
        }
        other => panic!("{:?}", other),
    }
}

#[test]
fn two_level_tree_visits_children_then_rightmost() {
    let root = page(0x05, 0, &[interior_cell(3, 2), interior_cell(4, 4)], Some(5));
    let pages = vec![vec![0u8; PAGE], root, leaf(&[1, 2]), leaf(&[3, 4]), leaf(&[5, 6])];
    let rows = tree_records(&pages, &db_header(), 2).unwrap();
    assert_eq!(values(&rows), vec![1, 2, 3, 4, 5, 6]);
    let p = Page::from_bytes(&pages[1], &db_header()).unwrap();
    match &p.cells[1] {
        Cell::InteriorTable { left_child, key } => {
            assert_eq!(*left_child, 4);
            assert_eq!(key.value, 4);
        }
        other => panic!("{:?}", other),
    }
}

#[test]
fn index_tree_yields_interior_keys_between_children() {
    let mut c1 = 3u32.to_be_bytes().to_vec();
    let rec = record(&[small_int(20)]);
    c1.push(rec.len() as u8);
    c1.extend_from_slice(&rec);
    let root = page(0x02, 0, &[c1], Some(4));
    let leaf_index = |vals: &[i8]| {
        let cells: Vec<Vec<u8>> = vals
            .iter()
            .map(|v| {
                let r = record(&[small_int(*v)]);
                let mut c = vec![r.len() as u8];
                c.extend_from_slice(&r);
                c
            })
            .collect();
        page(0x0a, 0, &cells, None)
    };
    let pages = vec![vec![0u8; PAGE], root, leaf_index(&[10, 11]), leaf_index(&[30])];
    let rows = tree_records(&pages, &db_header(), 2).unwrap();
    assert_eq!(values(&rows), vec![10, 11, 20, 30]);
}

#[test]
fn cyclic_tree_fails() {
    let root = page(0x05, 0, &[interior_cell(2, 1)], Some(2));
    let pages = vec![vec![0u8; PAGE], root];
    assert_eq!(tree_records(&pages, &db_header(), 2).unwrap_err(), DbError::Format);
    assert_eq!(tree_records(&pages, &db_header(), 7).unwrap_err(), DbError::Format);
}

#[test]
fn overflowing_payload_records_its_chain_head() {
    let rec = record(&[small_int(7)]);
    // declared payload of 1000 bytes: 39 stay in a 512-byte page
    let mut cell = vec![0x87, 0x68, 1];
    let mut local = rec.clone();
    local.resize(39, 0);
    cell.extend_from_slice(&local);
    cell.extend_from_slice(&11u32.to_be_bytes());
    let p = page(0x0d, 0, &[cell], None);
    let page = Page::from_bytes(&p, &db_header()).unwrap();
    match &page.cells[0] {
        Cell::LeafTable { size, overflow_page, payload, .. } => {
            assert_eq!(size.value, 1000);
            assert_eq!(*overflow_page, Some(11));
            assert_eq!(payload.content, vec![RecordSerial::I8(7)]);
        }
        other => panic!("{:?}", other),
    }
}

fn sample_file() -> Vec<u8> {
    let sql = "CREATE TABLE a (id INTEGER, name TEXT)";
    let schema = record(&[text("table"), text("a"), text("a"), small_int(2), text(sql)]);
    let mut first_page = page(0x0d, 100, &[leaf_cell(1, &schema)], None);
    first_page[..100].copy_from_slice(&file_header(2));
    let rows = [
        leaf_cell(1, &record(&[small_int(1), text("x")])),
        leaf_cell(2, &record(&[small_int(2), text("yy")])),
    ];
    let second_page = page(0x0d, 0, &rows, None);
    let mut file = first_page;
    file.extend_from_slice(&second_page);
    file
}

#[test]
fn schema_resolves_table_and_columns() {
    let db = Database::from_bytes(&sample_file()).unwrap();
    assert_eq!(db.tables.len(), 1);
    let t = &db.tables[0];
    assert_eq!(t.kind, "table");
    assert_eq!(t.name, "a");
    assert_eq!(t.table_name, "a");
    assert_eq!(t.root_page, 2);
    assert_eq!(create_table_columns(&t.sql), Some(vec!["id".to_string(), "name".to_string()]));
}

#[test]
fn select_named_column_projects_second_value() {
    let db = Database::from_bytes(&sample_file()).unwrap();
    match execute("SELECT name FROM a", &db).unwrap() {
        QueryOutput::Rows(rows) => assert_eq!(
            rows,
            vec![
                vec![RecordSerial::String("x".to_string())],
                vec![RecordSerial::String("yy".to_string())]
            ]
        ),
        QueryOutput::Count(n) => panic!("count {}", n),
    }
    match execute("SELECT name, id, name FROM a", &db).unwrap() {
        QueryOutput::Rows(rows) => assert_eq!(
            rows[1],
            vec![
                RecordSerial::String("yy".to_string()),
                RecordSerial::I8(2),
                RecordSerial::String("yy".to_string())
            ]
        ),
        QueryOutput::Count(n) => panic!("count {}", n),
    }
}

#[test]
fn count_and_select_all() {
    let db = Database::from_bytes(&sample_file()).unwrap();
    assert!(matches!(execute("SELECT COUNT(*) FROM a", &db), Ok(QueryOutput::Count(2))));
    match execute("SELECT * FROM a", &db).unwrap() {
        QueryOutput::Rows(rows) => {
            assert_eq!(rows.len(), 2);
            assert_eq!(rows[0], vec![RecordSerial::I8(1), RecordSerial::String("x".to_string())]);
        }
        QueryOutput::Count(n) => panic!("count {}", n),
    }
}

#[test]
fn count_of_missing_table_is_not_found() {
    let db = Database::from_bytes(&sample_file()).unwrap();
    assert!(matches!(execute("SELECT COUNT(*) FROM missing_table", &db), Err(DbError::NotFound)));
    assert!(matches!(execute("SELECT nope FROM a", &db), Err(DbError::NotFound)));
}

#[test]
fn query_syntax() {
    assert!(parse_command("SELECT COUNT(*) FROM apples").is_ok());
    assert!(parse_command("SELECT name ,  color FROM apples").is_ok());
    assert!(parse_command("SELECT\t*\nFROM apples").is_ok());
    let db = Database::from_bytes(&sample_file()).unwrap();
    for q in ["select * from a", "SELECT COUNT(*) FROM a ", "SELECT FROM a", "SELECT a,", "", "SELECT Name FROM a"] {
        assert!(matches!(execute(q, &db), Err(DbError::Syntax)), "{:?}", q);
    }
}

#[test]
fn create_table_statements() {
    let sql = "CREATE TABLE apples\n(\n\tid integer primary key autoincrement,\n\tname text,\n\tcolor text\n)";
    assert_eq!(
        create_table_columns(sql),
        Some(vec!["id".to_string(), "name".to_string(), "color".to_string()])
    );
    assert_eq!(create_table_columns("CREATE TABLE t (a)  "), Some(vec!["a".to_string()]));
    assert_eq!(create_table_columns("CREATE INDEX i ON t (a)"), None);
    assert_eq!(create_table_columns("CREATE TABLE t (a, )"), None);
}

#[test]
fn schema_rows_must_have_five_typed_columns() {
    let db = db_header();
    let bad = record(&[text("table"), text("a"), text("a"), text("x"), text("s")]);
    let cell_page = page(0x0d, 0, &[leaf_cell(1, &bad)], None);
    let p = Page::from_bytes(&cell_page, &db).unwrap();
    assert_eq!(Table::from_page(&p).unwrap_err(), DbError::Schema);
    match &p.cells[0] {
        Cell::LeafTable { payload, .. } => {
            assert_eq!(Schema::from_record(payload).unwrap_err(), DbError::Schema);
        }
        other => panic!("{:?}", other),
    }
    let short = record(&[text("table"), text("a")]);
    let second_page = Page::from_bytes(&page(0x0d, 0, &[leaf_cell(1, &short)], None), &db).unwrap();
    assert!(Schema::from_cell(&second_page.cells[0]).is_err());
}

#[test]
fn database_ignores_a_trailing_partial_page() {
    let mut f = sample_file();
    f.extend_from_slice(&[0u8; 7]);
    let db = Database::from_bytes(&f).unwrap();
    assert_eq!(db.pages.len(), 2);
    assert_eq!(db.tables.len(), 1);
    assert_eq!(Database::from_bytes(&[0u8; 50]).err(), Some(DbError::Format));
    // a file shorter than one page has no page 1 to read
    let short = &sample_file()[..300];
    assert_eq!(Database::from_bytes(short).err(), Some(DbError::Format));
}

#[test]
fn cell_fields_are_exact() {
    let buf = [0x03u8, 0x01, 0x02, 0x01, 0x07];
    let mut hb = file_header(1);
    hb[16] = 2;
    hb[17] = 0;
    let db = DatabaseHeader::from_bytes(&hb);
    let h = PageHeader::from_bytes(&leaf(&[1])).unwrap();
    match Cell::from_bytes(&buf, 0, &h, &db).unwrap() {
        Cell::LeafTable { size, row_id, payload, overflow_page } => {
            assert_eq!((size.value, size.size), (3, 1));
            assert_eq!((row_id.value, row_id.size), (1, 1));
            assert_eq!((payload.header_size.value, payload.header_size.size), (2, 1));
            assert_eq!(payload.content, vec![RecordSerial::I8(7)]);
            assert_eq!(overflow_page, None);
        }
        other => panic!("{:?}", other),
    }
    let ih = PageHeader::from_bytes(&page(0x05, 0, &[], Some(2))).unwrap();
    let icell = [0u8, 0, 0, 9, 0x81, 0x00];
    match Cell::from_bytes(&icell, 0, &ih, &db).unwrap() {
        Cell::InteriorTable { left_child, key } => {
            assert_eq!(left_child, 9);
            assert_eq!((key.value, key.size), (128, 2));
        }
        other => panic!("{:?}", other),
    }
}
