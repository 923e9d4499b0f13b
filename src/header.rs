use vstd::prelude::*;

verus! {

/// How text values are stored in the file.
#[derive(Debug, Clone, Copy, PartialEq, Eq, Structural)]
pub enum TextEncoding {
    UTF8,
    UTF16LE,
    UTF16BE,
}

/// A library version written `x.y.z`, stored as the number `x*1000000 + y*1000 + z`.
#[derive(Debug, Clone, Copy, PartialEq, Eq, Structural)]
pub struct SQLiteVersion {
    pub x: u8,
    pub y: u8,
    pub z: u8,
}

/// The fixed 100-byte header at the start of a database file.
#[derive(Debug, Clone, Copy, PartialEq, Eq, Structural)]
pub struct DatabaseHeader {
    /// Page size in bytes; the stored value `1` stands for 65536.
    pub page_size: u32,
    pub write_version: u8,
    pub read_version: u8,
    /// Bytes left unused at the end of every page.
    pub page_reserved_bytes: u8,
    pub maximum_embedded_payload_fraction: u8,
    pub minimum_embedded_payload_fraction: u8,
    pub leaf_payload_fraction: u8,
    pub file_change_counter: u32,
    pub pages_count: u32,
    pub first_free_list_trunk: u32,
    pub free_list_count: u32,
    pub schema_cookie: u32,
    pub schema_format_number: u32,
    pub default_page_cache_size: u32,
    pub largest_root_btree_page: u32,
    pub text_encoding: TextEncoding,
    pub user_version: u32,
    pub incremental_vacuum_mode: bool,
    pub application_id: u32,
    pub version_valid_for: u32,
    pub sqlite_version: SQLiteVersion,
}

/// Big-endian 16-bit number at `s[at..at + 2]`.
pub open spec fn be_u16(s: Seq<u8>, at: int) -> nat {
    s[at] as nat * 256 + s[at + 1] as nat
}

/// Big-endian 32-bit number at `s[at..at + 4]`.
pub open spec fn be_u32(s: Seq<u8>, at: int) -> nat {
    ((s[at] as nat * 256 + s[at + 1] as nat) * 256 + s[at + 2] as nat) * 256 + s[at + 3] as nat
}

/// The encoding that a stored tag selects; unknown tags read as UTF-8.
pub open spec fn encoding_of_tag(tag: nat) -> TextEncoding {
    if tag == 2 {
        TextEncoding::UTF16LE
    } else if tag == 3 {
        TextEncoding::UTF16BE
    } else {
        TextEncoding::UTF8
    }
}

/// The page size that a stored 16-bit value denotes.
pub open spec fn page_size_of(stored: nat) -> nat {
    if stored == 1 {
        65536
    } else {
        stored
    }
}

pub open spec fn version_of(n: nat) -> SQLiteVersion {
    SQLiteVersion {
        x: ((n / 1000000) % 256) as u8,
        y: ((n % 1000000) / 1000) as u8,
        z: (n % 1000) as u8,
    }
}

pub(crate) fn read_u16_be(buf: &[u8], at: usize) -> (r: u16)
    requires
        at + 2 <= buf@.len(),
    ensures
        r as nat == be_u16(buf@, at as int),
{
    buf[at] as u16 * 256 + buf[at + 1] as u16
}

pub(crate) fn read_u32_be(buf: &[u8], at: usize) -> (r: u32)
    requires
        at + 4 <= buf@.len(),
    ensures
        r as nat == be_u32(buf@, at as int),
{
    ((buf[at] as u32 * 256 + buf[at + 1] as u32) * 256 + buf[at + 2] as u32) * 256
        + buf[at + 3] as u32
}

impl SQLiteVersion {
    /// Splits a stored version number into its three parts.
    pub fn parse(buf: [u8; 4]) -> (r: Self)
        ensures
            r == version_of(be_u32(buf@, 0)),
    {
        let version = read_u32_be(buf.as_slice(), 0);
        SQLiteVersion {
            x: ((version / 1000000) % 256) as u8,
            y: ((version % 1000000) / 1000) as u8,
            z: (version % 1000) as u8,
        }
    }
}

/// The header that the first 100 bytes of `b` describe.
pub open spec fn header_spec(b: Seq<u8>) -> DatabaseHeader {
    DatabaseHeader {
        page_size: page_size_of(be_u16(b, 16)) as u32,
        write_version: b[18],
        read_version: b[19],
        page_reserved_bytes: b[20],
        maximum_embedded_payload_fraction: b[21],
        minimum_embedded_payload_fraction: b[22],
        leaf_payload_fraction: b[23],
        file_change_counter: be_u32(b, 24) as u32,
        pages_count: be_u32(b, 28) as u32,
        first_free_list_trunk: be_u32(b, 32) as u32,
        free_list_count: be_u32(b, 36) as u32,
        schema_cookie: be_u32(b, 40) as u32,
        schema_format_number: be_u32(b, 44) as u32,
        default_page_cache_size: be_u32(b, 48) as u32,
        largest_root_btree_page: be_u32(b, 52) as u32,
        text_encoding: encoding_of_tag(be_u32(b, 56)),
        user_version: be_u32(b, 60) as u32,
        incremental_vacuum_mode: be_u32(b, 64) != 0,
        application_id: be_u32(b, 68) as u32,
        version_valid_for: be_u32(b, 92) as u32,
        sqlite_version: version_of(be_u32(b, 96)),
    }
}

impl DatabaseHeader {
    /// Decodes the file header. An unknown text-encoding tag falls back to
    /// UTF-8; a stored page size of 1 means 65536.
    pub fn from_bytes(buf: &[u8; 100]) -> (r: Self)
        ensures
            r == header_spec(buf@),
    {
        DatabaseHeader::from_slice(buf.as_slice())
    }

    /// Decodes the file header at the start of `b`.
    pub fn from_slice(b: &[u8]) -> (r: Self)
        requires
            b@.len() >= 100,
        ensures
            r == header_spec(b@),
    {
        let stored_page_size = read_u16_be(b, 16);
        let page_size: u32 = if stored_page_size == 1 {
            65536
        } else {
            stored_page_size as u32
        };
        let tag = read_u32_be(b, 56);
        let text_encoding = if tag == 2 {
            TextEncoding::UTF16LE
        } else if tag == 3 {
            TextEncoding::UTF16BE
        } else {
            TextEncoding::UTF8
        };
        let version = read_u32_be(b, 96);
        DatabaseHeader {
            page_size,
            write_version: b[18],
            read_version: b[19],
            page_reserved_bytes: b[20],
            maximum_embedded_payload_fraction: b[21],
            minimum_embedded_payload_fraction: b[22],
            leaf_payload_fraction: b[23],
            file_change_counter: read_u32_be(b, 24),
            pages_count: read_u32_be(b, 28),
            first_free_list_trunk: read_u32_be(b, 32),
            free_list_count: read_u32_be(b, 36),
            schema_cookie: read_u32_be(b, 40),
            schema_format_number: read_u32_be(b, 44),
            default_page_cache_size: read_u32_be(b, 48),
            largest_root_btree_page: read_u32_be(b, 52),
            text_encoding,
            user_version: read_u32_be(b, 60),
            incremental_vacuum_mode: read_u32_be(b, 64) != 0,
            application_id: read_u32_be(b, 68),
            version_valid_for: read_u32_be(b, 92),
            sqlite_version: SQLiteVersion {
                x: ((version / 1000000) % 256) as u8,
                y: ((version % 1000000) / 1000) as u8,
                z: (version % 1000) as u8,
            },
        }
    }
}

} // verus!
