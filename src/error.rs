use vstd::prelude::*;

verus! {

/// Why an operation on a database file failed.
#[derive(Debug, Clone, Copy, PartialEq, Eq, Structural)]
pub enum DbError {
    /// The bytes do not follow the file format: unknown page kind, a
    /// truncated header, or a structure that runs past the end of its page.
    Format,
    /// Text bytes that are not valid under the file's text encoding.
    Decode,
    /// A row of the schema table that does not describe a schema object.
    Schema,
    /// A query names a table or column that does not exist.
    NotFound,
    /// A query that the command grammar does not accept.
    Syntax,
}

} // verus!
