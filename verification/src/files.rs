//! Remote filesystem entries as plain values.
//!
//! An entry's kind is decided once, from the listing that produced it, and
//! never recomputed; entries are immutable values that every consumer may
//! clone and read freely.

use vstd::prelude::*;

verus! {

/// The kind of a remote filesystem object.
#[derive(Clone, Copy, Debug, PartialEq, Eq, Structural)]
pub enum EntryKind {
    Dir,
    File,
    Symlink,
    Other,
}

/// The attributes a directory listing reports for one entry.
#[derive(Clone, Debug)]
pub struct FileAttrs {
    pub size: Option<u64>,
    pub mtime: Option<u32>,
    pub user: Option<String>,
    pub permissions: Option<u32>,
}

impl FileAttrs {
    /// Attributes with every field unknown, as a synthesized root carries.
    pub fn empty() -> (r: FileAttrs)
        ensures
            r.size is None,
            r.mtime is None,
            r.user is None,
            r.permissions is None,
    {
        FileAttrs { size: None, mtime: None, user: None, permissions: None }
    }
}

/// One remote filesystem object: its name, kind and attributes.
#[derive(Clone, Debug)]
pub struct FileEntry {
    pub name: String,
    pub type_: EntryKind,
    pub attributes: FileAttrs,
}

impl FileEntry {
    /// Construct an entry from its parts, as a listing response is turned
    /// into a value or a synthetic root is made up.
    pub fn from_file(name: String, type_: EntryKind, attributes: FileAttrs) -> (r: FileEntry)
        ensures
            r.name == name,
            r.type_ == type_,
            r.attributes == attributes,
    {
        FileEntry { name, type_, attributes }
    }

    pub fn is_dir(&self) -> (r: bool)
        ensures
            r == (self.type_ == EntryKind::Dir),
    {
        self.type_ == EntryKind::Dir
    }

    pub fn is_file(&self) -> (r: bool)
        ensures
            r == (self.type_ == EntryKind::File),
    {
        self.type_ == EntryKind::File
    }

    pub fn is_symlink(&self) -> (r: bool)
        ensures
            r == (self.type_ == EntryKind::Symlink),
    {
        self.type_ == EntryKind::Symlink
    }

    pub fn name(&self) -> (r: &String)
        ensures
            r == self.name,
    {
        &self.name
    }
}

/// Copy attributes field by field, keeping exactly what they state.
pub fn clone_attrs(a: &FileAttrs) -> (r: FileAttrs)
    ensures
        r.size == a.size,
        r.mtime == a.mtime,
        r.permissions == a.permissions,
        match (r.user, a.user) {
            (Some(x), Some(y)) => x@ == y@,
            (None, None) => true,
            _ => false,
        },
{
    let user = match &a.user {
        Some(u) => Some(u.clone()),
        None => None,
    };
    FileAttrs { size: a.size, mtime: a.mtime, user, permissions: a.permissions }
}

/// What rendering a unix timestamp as `YYYY-MM-DD hh:mm:ss` yields: a
/// pure function of the timestamp alone.
pub uninterp spec fn formatted_timestamp(t: u32) -> Seq<char>;

/// Relies on chrono's `DateTime::from_timestamp` and `format`: for every
/// unsigned 32-bit timestamp the date is in chrono's representable range,
/// and the rendering depends on the timestamp alone.
#[verifier::external_body]
fn format_unix_timestamp(t: u32) -> (r: String)
    ensures
        r@ == formatted_timestamp(t),
{
    match chrono::DateTime::from_timestamp(t as i64, 0) {
        Some(datetime) => datetime.format("%Y-%m-%d %H:%M:%S").to_string(),
        None => String::new(),
    }
}

/// The modification-time column: a rendered date when the listing
/// reported one, nothing otherwise.
pub fn format_timestamp(timestamp: Option<u32>) -> (r: Option<String>)
    ensures
        timestamp matches Some(t) ==> (r matches Some(s) && s@ == formatted_timestamp(t)),
        timestamp is None ==> r is None,
{
    match timestamp {
        Some(t) => Some(format_unix_timestamp(t)),
        None => None,
    }
}

} // verus!
