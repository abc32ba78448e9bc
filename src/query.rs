//! Queries to the database: a file name and file-system facts.
use vstd::prelude::*;
use vstd::slice::slice_to_vec;

verus! {

/// The kind of a file-system entry.
#[derive(Debug, Clone, Copy, PartialEq, Eq)]
pub enum FileKind {
    Regular,
    Directory,
    Symlink,
    BlockDevice,
    CharDevice,
    Fifo,
    Socket,
}

/// What the query knows of a file from the file system.
#[derive(Debug, Clone, Copy, PartialEq, Eq)]
pub struct FileMetadata {
    /// The file's size in bytes.
    pub size: u64,
    /// The kind of entry.
    pub kind: FileKind,
}

/// Information available for a query to the database.
#[derive(Debug, Clone)]
pub struct FileQuery {
    /// The file's name, as the platform's bytes.
    pub filename: Option<Vec<u8>>,
    /// The file metadata.
    pub metadata: Option<FileMetadata>,
}

/// Builder for [FileQuery].
#[derive(Debug, Clone)]
pub struct FileQueryBuilder {
    filename: Option<Vec<u8>>,
    metadata: Option<FileMetadata>,
}

impl FileQuery {
    /// A builder with nothing set.
    pub fn builder() -> (b: FileQueryBuilder)
        ensures
            b.filename_spec() is None,
            b.metadata_spec() is None,
    {
        FileQueryBuilder::new()
    }

    /// A query by file name alone.
    pub fn for_filename(name: &[u8]) -> (q: FileQuery)
        ensures
            q.filename is Some && q.filename->0@ == name@,
            q.metadata is None,
    {
        FileQuery::builder().filename(name).build()
    }
}

impl FileQueryBuilder {
    /// The file name set so far.
    pub closed spec fn filename_spec(&self) -> Option<Vec<u8>> {
        self.filename
    }

    /// The metadata set so far.
    pub closed spec fn metadata_spec(&self) -> Option<FileMetadata> {
        self.metadata
    }

    /// A builder with nothing set.
    pub fn new() -> (b: FileQueryBuilder)
        ensures
            b.filename_spec() is None,
            b.metadata_spec() is None,
    {
        FileQueryBuilder { filename: None, metadata: None }
    }

    /// Build the file query.
    pub fn build(self) -> (q: FileQuery)
        ensures
            q.filename == self.filename_spec(),
            q.metadata == self.metadata_spec(),
    {
        FileQuery { filename: self.filename, metadata: self.metadata }
    }

    /// Set the file name for this builder.
    pub fn filename(self, name: &[u8]) -> (b: FileQueryBuilder)
        ensures
            b.filename_spec() is Some && b.filename_spec()->0@ == name@,
            b.metadata_spec() == self.metadata_spec(),
    {
        FileQueryBuilder { filename: Some(slice_to_vec(name)), metadata: self.metadata }
    }

    /// Set the metadata for this builder.
    pub fn metadata(self, meta: FileMetadata) -> (b: FileQueryBuilder)
        ensures
            b.filename_spec() == self.filename_spec(),
            b.metadata_spec() == Some(meta),
    {
        FileQueryBuilder { filename: self.filename, metadata: Some(meta) }
    }
}

} // verus!
