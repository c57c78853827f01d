//! The index entries of complete and partial blobs, and the handles through
//! which a blob's data and outboard are reached.
use vstd::prelude::*;

use crate::encoding::{le_bytes, u64_le_bytes};
use crate::filename::{name_text, FileName, FileNameView};

verus! {

/// Bytes in a chunk group: 2^4 chunks of 1024 bytes. Blobs of at most this
/// size need no outboard.
pub const BLOCK_SIZE: u64 = 16384;

/// True for sizes that need an outboard tree.
pub fn needs_outboard(size: u64) -> (r: bool)
    ensures
        r == (size > BLOCK_SIZE),
{
    size > BLOCK_SIZE
}

/// The classes of failure that callers see.
#[derive(Debug, Clone, Copy, PartialEq, Eq, Structural)]
pub enum ErrorKind {
    InvalidInput,
    InvalidData,
    NotFound,
    Unsupported,
}

/// The failures of the store's own rules.
#[derive(Debug, Clone, Copy, PartialEq, Eq, Structural)]
pub enum StoreError {
    /// Two entries for one hash disagree on the size.
    SizeMismatch,
    /// A path that must be absolute is not.
    NotAbsolute,
    /// A target path has no parent directory.
    NoParent,
    /// The index holds a schema version other than the supported one.
    UnsupportedVersion,
    /// The stored schema version is not eight bytes.
    MalformedVersion,
    /// The hash is in none of the tables.
    HashNotFound,
    /// A complete entry has neither owned data nor an external path.
    NoValidPath,
    /// A write through a read-only memory blob.
    Immutable,
}

impl StoreError {
    /// The class of the failure.
    pub fn kind(&self) -> (r: ErrorKind)
        ensures
            r == error_kind(*self),
    {
        match self {
            StoreError::SizeMismatch => ErrorKind::InvalidInput,
            StoreError::NotAbsolute => ErrorKind::InvalidInput,
            StoreError::NoParent => ErrorKind::InvalidInput,
            StoreError::UnsupportedVersion => ErrorKind::InvalidInput,
            StoreError::MalformedVersion => ErrorKind::InvalidData,
            StoreError::HashNotFound => ErrorKind::NotFound,
            StoreError::NoValidPath => ErrorKind::NotFound,
            StoreError::Immutable => ErrorKind::Unsupported,
        }
    }
}

pub open spec fn error_kind(e: StoreError) -> ErrorKind {
    match e {
        StoreError::SizeMismatch | StoreError::NotAbsolute | StoreError::NoParent
        | StoreError::UnsupportedVersion => ErrorKind::InvalidInput,
        StoreError::MalformedVersion => ErrorKind::InvalidData,
        StoreError::HashNotFound | StoreError::NoValidPath => ErrorKind::NotFound,
        StoreError::Immutable => ErrorKind::Unsupported,
    }
}

/// The error of a write through an immutable memory blob.
pub fn immutable_error() -> (r: StoreError)
    ensures
        r == StoreError::Immutable,
{
    StoreError::Immutable
}

/// The texts of a list of paths.
pub open spec fn texts(v: Seq<String>) -> Seq<Seq<char>> {
    v.map_values(|s: String| s@)
}

/// `a` extended by the paths of `b` that it does not hold yet, in order.
pub open spec fn merge_paths(a: Seq<Seq<char>>, b: Seq<Seq<char>>) -> Seq<Seq<char>>
    decreases b.len(),
{
    if b.len() == 0 {
        a
    } else {
        let m = merge_paths(a, b.drop_last());
        if m.contains(b.last()) {
            m
        } else {
            m.push(b.last())
        }
    }
}

/// A merge holds the paths of both sides, and no path twice.
pub proof fn lemma_merge_paths(a: Seq<Seq<char>>, b: Seq<Seq<char>>)
    requires
        a.no_duplicates(),
    ensures
        merge_paths(a, b).to_set() == a.to_set().union(b.to_set()),
        merge_paths(a, b).no_duplicates(),
    decreases b.len(),
{
    if b.len() > 0 {
        let m = merge_paths(a, b.drop_last());
        lemma_merge_paths(a, b.drop_last());
        let x = b.last();
        assert(b.to_set() =~= b.drop_last().to_set().insert(x)) by {
            assert forall|y| b.to_set().contains(y) implies b.drop_last().to_set().insert(x).contains(y) by {
                let i = choose|i: int| 0 <= i < b.len() && b[i] == y;
                if i < b.len() - 1 {
                    assert(b.drop_last()[i] == y);
                }
            }
            assert forall|y| b.drop_last().to_set().insert(x).contains(y) implies b.to_set().contains(y) by {
                if y != x {
                    let i = choose|i: int| 0 <= i < b.len() - 1 && b.drop_last()[i] == y;
                    assert(b[i] == y);
                } else {
                    assert(b[b.len() - 1] == y);
                }
            }
        }
        if m.contains(x) {
            assert(m.to_set().contains(x));
            assert(merge_paths(a, b).to_set() =~= a.to_set().union(b.to_set()));
        } else {
            assert(m.push(x).to_set() =~= m.to_set().insert(x)) by {
                assert forall|y| m.push(x).to_set().contains(y) implies m.to_set().insert(x).contains(y) by {
                    let i = choose|i: int| 0 <= i < m.len() + 1 && m.push(x)[i] == y;
                    if i < m.len() {
                        assert(m[i] == y);
                    }
                }
                assert forall|y| m.to_set().insert(x).contains(y) implies m.push(x).to_set().contains(y) by {
                    if y != x {
                        let i = choose|i: int| 0 <= i < m.len() && m[i] == y;
                        assert(m.push(x)[i] == y);
                    } else {
                        assert(m.push(x)[m.len() as int] == y);
                    }
                }
            }
            assert(merge_paths(a, b).to_set() =~= a.to_set().union(b.to_set()));
            assert(m.push(x).no_duplicates()) by {
                assert forall|i: int, j: int|
                    0 <= i < m.len() + 1 && 0 <= j < m.len() + 1 && i != j implies m.push(x)[i]
                    != m.push(x)[j] by {
                    if i == m.len() {
                        assert(m[j] == m.push(x)[j]);
                    } else if j == m.len() {
                        assert(m[i] == m.push(x)[i]);
                    }
                }
            }
        }
    }
}

/// Whether the list holds a path with the text of `p`.
pub fn contains_text(v: &Vec<String>, p: &String) -> (r: bool)
    ensures
        r == texts(v@).contains(p@),
{
    let mut j: usize = 0;
    while j < v.len()
        invariant
            j <= v@.len(),
            forall|k: int| 0 <= k < j ==> texts(v@)[k] != p@,
        decreases v@.len() - j,
    {
        if v[j] == *p {
            assert(texts(v@)[j as int] == p@);
            return true;
        }
        j = j + 1;
    }
    false
}

/// The index row of a complete blob. The external paths are kept in the
/// order in which they became known, each once; the first of them is the one
/// that readers use when the store owns no data.
#[derive(Debug)]
pub struct CompleteEntry {
    /// size of the data
    pub size: u64,
    /// true means we own the data, false means it is stored externally
    pub owned_data: bool,
    /// external storage locations, each held once
    pub external: Vec<String>,
}

/// What merging the row `b` into the row `a` gives: the size, whether the
/// data is owned, and the external paths; or the error when both have a size
/// and the sizes differ.
pub open spec fn union_spec(a: CompleteEntry, b: CompleteEntry) -> Result<
    (u64, bool, Seq<Seq<char>>),
    StoreError,
> {
    if a.size != 0 && a.size != b.size {
        Err(StoreError::SizeMismatch)
    } else {
        Ok((b.size, a.owned_data || b.owned_data, merge_paths(a.paths(), b.paths())))
    }
}

impl CompleteEntry {
    /// The external paths as texts.
    pub open spec fn paths(&self) -> Seq<Seq<char>> {
        texts(self.external@)
    }

    /// No external path is held twice.
    pub open spec fn wf(&self) -> bool {
        self.paths().no_duplicates()
    }

    /// The first external path, if any.
    pub fn external_path(&self) -> (r: Option<&String>)
        ensures
            self.external@.len() == 0 ==> r is None,
            self.external@.len() > 0 ==> r == Some(&self.external@[0]),
    {
        if self.external.len() == 0 {
            None
        } else {
            Some(&self.external[0])
        }
    }

    /// A new complete entry of the given size whose data the store owns.
    pub fn new_default(size: u64) -> (r: CompleteEntry)
        ensures
            r.size == size,
            r.owned_data,
            r.external@.len() == 0,
            r.wf(),
    {
        CompleteEntry { owned_data: true, external: Vec::new(), size }
    }

    /// A new complete entry of the given size whose data lives at an external
    /// path.
    pub fn new_external(size: u64, path: String) -> (r: CompleteEntry)
        ensures
            r.size == size,
            !r.owned_data,
            r.paths() == seq![path@],
            r.wf(),
    {
        let mut external: Vec<String> = Vec::new();
        external.push(path);
        let r = CompleteEntry { owned_data: false, external, size };
        assert(r.paths() =~= seq![path@]);
        r
    }

    /// True if the data is owned or has at least one external path.
    pub fn is_valid(&self) -> (r: bool)
        ensures
            r == (self.owned_data || self.external@.len() > 0),
    {
        !self.external.is_empty() || self.owned_data
    }

    /// Merges `new` into this entry: the size must agree unless this entry
    /// has none yet; ownership is or-ed and the external paths are joined.
    pub fn union_with(&mut self, new: CompleteEntry) -> (r: Result<(), StoreError>)
        requires
            old(self).wf(),
        ensures
            match union_spec(*old(self), new) {
                Ok((size, owned, paths)) => r is Ok && final(self).size == size
                    && final(self).owned_data == owned && final(self).paths() == paths,
                Err(e) => r == Err::<(), StoreError>(e) && *final(self) == *old(self),
            },
            final(self).wf(),
    {
        if self.size != 0 && self.size != new.size {
            return Err(StoreError::SizeMismatch);
        }
        self.size = new.size;
        self.owned_data = self.owned_data || new.owned_data;
        let ghost start = self.paths();
        let ghost incoming = new.paths();
        let mut i: usize = 0;
        while i < new.external.len()
            invariant
                i <= new.external@.len(),
                incoming == texts(new.external@),
                self.paths() == merge_paths(start, incoming.subrange(0, i as int)),
                self.paths().no_duplicates(),
                start.no_duplicates(),
                self.size == new.size,
                self.owned_data == (old(self).owned_data || new.owned_data),
            decreases new.external@.len() - i,
        {
            let p = &new.external[i];
            let ghost before = self.paths();
            let found = contains_text(&self.external, p);
            proof {
                assert(incoming.subrange(0, i + 1).drop_last() =~= incoming.subrange(0, i as int));
                assert(incoming.subrange(0, i + 1).last() == p@);
                lemma_merge_paths(start, incoming.subrange(0, i + 1));
                if found {
                    assert(before.contains(p@));
                } else {
                    assert(!before.contains(p@));
                }
            }
            if !found {
                self.external.push(p.clone());
                proof {
                    assert(self.paths() =~= before.push(p@));
                }
            }
            i = i + 1;
        }
        proof {
            assert(incoming.subrange(0, incoming.len() as int) =~= incoming);
        }
        Ok(())
    }
}

impl Default for CompleteEntry {
    fn default() -> (r: CompleteEntry)
        ensures
            r.size == 0,
            !r.owned_data,
            r.external@.len() == 0,
    {
        CompleteEntry { size: 0, owned_data: false, external: Vec::new() }
    }
}

/// Merging two entries of the same size gives the same size, ownership and
/// set of external paths in either order; merging into an entry that has a
/// different, non-zero size fails.
pub proof fn lemma_union_commutes(a: CompleteEntry, b: CompleteEntry)
    requires
        a.wf(),
        b.wf(),
    ensures
        a.size == b.size ==> (union_spec(a, b) matches Ok((size_ab, owned_ab, paths_ab))
            && union_spec(b, a) matches Ok((size_ba, owned_ba, paths_ba)) && size_ab == size_ba
            && owned_ab == owned_ba && paths_ab.to_set() == paths_ba.to_set()),
        a.size != 0 && a.size != b.size ==> union_spec(a, b) == Err::<
            (u64, bool, Seq<Seq<char>>),
            StoreError,
        >(StoreError::SizeMismatch),
{
    lemma_merge_paths(a.paths(), b.paths());
    lemma_merge_paths(b.paths(), a.paths());
    assert(a.paths().to_set().union(b.paths().to_set()) =~= b.paths().to_set().union(
        a.paths().to_set(),
    ));
}

/// Data about a long lived partial entry.
#[derive(Debug, Clone, Copy)]
pub struct PartialEntryData {
    /// size of the data
    pub size: u64,
    /// unique id for this entry
    pub uuid: [u8; 16],
}

impl PartialEntryData {
    pub fn new(size: u64, uuid: [u8; 16]) -> (r: PartialEntryData)
        ensures
            r.size == size,
            r.uuid == uuid,
    {
        PartialEntryData { size, uuid }
    }
}

/// Data about a transient partial entry, held in memory only.
#[derive(Debug)]
pub struct TransientPartialEntryData {
    /// size of the data
    pub size: u64,
    /// the bytes received so far
    pub data: Vec<u8>,
}

impl TransientPartialEntryData {
    pub fn new(size: u64) -> (r: TransientPartialEntryData)
        ensures
            r.size == size,
            r.data@.len() == 0,
    {
        TransientPartialEntryData { size, data: Vec::new() }
    }
}

/// A resource that is either in memory or in a file.
#[derive(Debug, Clone)]
pub enum MemOrFile<M, F> {
    Mem(M),
    File(F),
}

/// Where the data and the outboard of an entry are.
#[derive(Debug, Clone)]
pub struct EntryData {
    /// The data itself: bytes, or a path and the size.
    pub data: MemOrFile<Vec<u8>, (String, u64)>,
    /// The bao outboard: bytes, or a path.
    pub outboard: MemOrFile<Vec<u8>, String>,
}

impl EntryData {
    pub open spec fn size_spec(&self) -> nat {
        match self.data {
            MemOrFile::Mem(b) => b@.len(),
            MemOrFile::File((_, s)) => s as nat,
        }
    }

    /// Returns the size of the blob.
    pub fn size(&self) -> (r: u64)
        requires
            self.data matches MemOrFile::Mem(b) ==> b@.len() <= u64::MAX,
        ensures
            r == self.size_spec(),
    {
        match &self.data {
            MemOrFile::Mem(mem) => mem.len() as u64,
            MemOrFile::File((_, size)) => *size,
        }
    }
}

/// An entry of the store: a hash and where its data and outboard are.
#[derive(Debug, Clone)]
pub struct Entry {
    pub hash: crate::hash::Hash,
    pub entry: EntryData,
    pub is_complete: bool,
}

impl Entry {
    pub fn hash(&self) -> (r: crate::hash::Hash)
        ensures
            r == self.hash,
    {
        self.hash
    }

    pub fn size(&self) -> (r: u64)
        requires
            self.entry.data matches MemOrFile::Mem(b) ==> b@.len() <= u64::MAX,
        ensures
            r == self.entry.size_spec(),
    {
        self.entry.size()
    }

    pub fn is_complete(&self) -> (r: bool)
        ensures
            r == self.is_complete,
    {
        self.is_complete
    }
}

/// The outboard of a blob that needs no tree: its size in eight bytes,
/// least significant first.
pub fn size_outboard(size: u64) -> (r: Vec<u8>)
    ensures
        r@ == le_bytes(size as nat, 8),
{
    u64_le_bytes(size)
}

/// A path to a file that is opened only when it is read or written.
#[derive(Debug, Clone)]
pub struct FileHandle(pub String);

impl FileHandle {
    pub fn new(path: String) -> (r: FileHandle)
        ensures
            r.0@ == path@,
    {
        FileHandle(path)
    }

    pub fn path(&self) -> (r: &String)
        ensures
            r@ == self.0@,
    {
        &self.0
    }
}

/// The data of a partial entry: the in-memory buffer of a small blob, or a
/// file.
#[derive(Debug, Clone)]
pub enum MemOrFileHandle {
    Mem,
    File(FileHandle),
}

/// A partial entry: a blob whose download is in progress.
#[derive(Debug, Clone)]
pub struct PartialEntry {
    pub hash: crate::hash::Hash,
    pub size: u64,
    pub data: MemOrFileHandle,
    pub outboard: Option<FileHandle>,
}

impl PartialEntry {
    pub fn hash(&self) -> (r: crate::hash::Hash)
        ensures
            r == self.hash,
    {
        self.hash
    }

    pub fn size(&self) -> (r: u64)
        ensures
            r == self.size,
    {
        self.size
    }

    pub fn is_complete(&self) -> (r: bool)
        ensures
            !r,
    {
        false
    }
}

/// Data to be imported.
#[derive(Debug, Clone)]
pub enum ImportData {
    /// A file in the partial directory that the store owns.
    TempFile(String),
    /// A file outside the store that the caller keeps stable.
    External(String),
}

impl ImportData {
    pub fn path(&self) -> (r: &String)
        ensures
            self matches ImportData::TempFile(p) ==> r@ == p@,
            self matches ImportData::External(p) ==> r@ == p@,
    {
        match self {
            ImportData::TempFile(path) => path,
            ImportData::External(path) => path,
        }
    }
}

/// The prefix of every outboard, and of a partial outboard file, reads back
/// as the size it was written from.
pub proof fn lemma_outboard_prefix(size: u64)
    ensures
        crate::encoding::le_value(le_bytes(size as nat, 8)) == size,
        le_bytes(size as nat, 8).len() == 8,
{
    crate::encoding::lemma_le_round_trip(size as nat, 8);
    crate::encoding::lemma_pow256_8();
}

/// A reader that counts the bytes read through it and reports the running
/// offset.
pub struct ProgressReader2<R, F> {
    pub inner: R,
    pub offset: u64,
    pub cb: F,
}

impl<R, F> ProgressReader2<R, F> {
    pub fn new(inner: R, cb: F) -> (r: ProgressReader2<R, F>)
        ensures
            r.offset == 0,
            r.inner == inner,
            r.cb == cb,
    {
        ProgressReader2 { inner, offset: 0, cb }
    }

    /// Counts `read` more bytes; gives the new offset.
    pub fn advance(&mut self, read: u64) -> (r: u64)
        requires
            old(self).offset + read <= u64::MAX,
        ensures
            r == old(self).offset + read,
            final(self).offset == r,
            final(self).inner == old(self).inner,
            final(self).cb == old(self).cb,
    {
        self.offset = self.offset + read;
        self.offset
    }
}

/// A marker that keeps a value on the thread that made it.
#[derive(Debug)]
pub struct NonSend {
    _marker: core::marker::PhantomData<std::rc::Rc<()>>,
}

impl NonSend {
    /// Create a new non-sendable marker.
    pub fn new() -> (r: NonSend) {
        NonSend { _marker: core::marker::PhantomData }
    }
}

} // verus!
