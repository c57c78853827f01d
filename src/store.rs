//! The decisions of the store. The filesystem and the index database are
//! reached by the caller; these functions take what was read from them and
//! say what is to be written, renamed or deleted.
use vstd::prelude::*;

use crate::encoding::{be_value, hex_encode, hex_string, le_bytes, u64_be_bytes, u64_from_be};
use crate::entry::{
    needs_outboard, size_outboard, CompleteEntry, Entry, EntryData, FileHandle, ImportData,
    MemOrFile, MemOrFileHandle, PartialEntry, PartialEntryData, StoreError, BLOCK_SIZE,
};
use crate::filename::{name_text, FileName, FileNameView};
use crate::state::State;

verus! {

/// Bytes of outboard for a blob of the given size, with 16 KiB chunk groups:
/// eight bytes of size and 64 bytes for each pair of child hashes.
pub open spec fn outboard_len(size: u64) -> nat {
    let blocks: int = if size == 0 {
        1
    } else {
        (size + 16383) / 16384
    };
    ((blocks - 1) * 64 + 8) as nat
}

/// Relies on bao_tree::io::outboard_size with chunk groups of 2^4 chunks:
/// 64 bytes per block after the first, plus the 8-byte size prefix.
#[verifier::external_body]
fn outboard_size(size: u64) -> (r: u64)
    ensures
        r == outboard_len(size),
{
    bao_tree::io::outboard_size(size, bao_tree::BlockSize(4))
}

/// The schema version of the index that this store reads and writes.
pub const DB_VERSION: u64 = 2;

/// Default minimum size for an export that moves the file.
pub const DEFAULT_MOVE_THRESHOLD: u64 = 131072;

/// Default maximum size of an outboard kept in the index.
pub const DEFAULT_OUTBOARD_INLINE_THRESHOLD: u64 = 4104;

/// `dir` and `name` joined by a slash.
pub open spec fn join(dir: Seq<char>, name: Seq<char>) -> Seq<char> {
    dir + seq!['/'] + name
}

/// Joins a directory and a name.
pub fn join_path(dir: &str, name: &str) -> (r: String)
    ensures
        r@ == join(dir@, name@),
{
    let mut s = String::from_str(dir);
    s.append("/");
    s.append(name);
    proof {
        reveal_strlit("/");
        assert(s@ =~= join(dir@, name@));
    }
    s
}

/// The layout of a store under its root directory, and its thresholds.
#[derive(Debug)]
pub struct Options {
    pub complete_path: String,
    pub partial_path: String,
    pub meta_path: String,
    pub move_threshold: u64,
    pub outboard_inline_threshold: u64,
}

impl Options {
    /// The layout under `root`: `complete`, `partial` and `meta`
    /// directories, with the default thresholds.
    pub fn new(root: &str) -> (r: Options)
        ensures
            r.complete_path@ == join(root@, seq!['c', 'o', 'm', 'p', 'l', 'e', 't', 'e']),
            r.partial_path@ == join(root@, seq!['p', 'a', 'r', 't', 'i', 'a', 'l']),
            r.meta_path@ == join(root@, seq!['m', 'e', 't', 'a']),
            r.move_threshold == DEFAULT_MOVE_THRESHOLD,
            r.outboard_inline_threshold == DEFAULT_OUTBOARD_INLINE_THRESHOLD,
    {
        proof {
            reveal_strlit("complete");
            reveal_strlit("partial");
            reveal_strlit("meta");
        }
        let r = Options {
            complete_path: join_path(root, "complete"),
            partial_path: join_path(root, "partial"),
            meta_path: join_path(root, "meta"),
            move_threshold: DEFAULT_MOVE_THRESHOLD,
            outboard_inline_threshold: DEFAULT_OUTBOARD_INLINE_THRESHOLD,
        };
        assert(r.complete_path@ =~= join(root@, seq!['c', 'o', 'm', 'p', 'l', 'e', 't', 'e']));
        assert(r.partial_path@ =~= join(root@, seq!['p', 'a', 'r', 't', 'i', 'a', 'l']));
        assert(r.meta_path@ =~= join(root@, seq!['m', 'e', 't', 'a']));
        r
    }

    /// The index database file.
    pub fn db_path(&self) -> (r: String)
        ensures
            r@ == join(self.meta_path@, seq!['d', 'b', '.', 'v', '1']),
    {
        proof {
            reveal_strlit("db.v1");
        }
        let r = join_path(self.meta_path.as_str(), "db.v1");
        assert(r@ =~= join(self.meta_path@, seq!['d', 'b', '.', 'v', '1']));
        r
    }

    /// The partial data file of a hash and download id.
    pub fn partial_data_path(&self, hash: crate::hash::Hash, uuid: &[u8; 16]) -> (r: String)
        ensures
            r@ == join(self.partial_path@, name_text(FileNameView::PartialData(hash.0@, uuid@))),
    {
        let name = FileName::PartialData(hash, *uuid).to_string();
        join_path(self.partial_path.as_str(), name.as_str())
    }

    /// The partial outboard file of a hash and download id.
    pub fn partial_outboard_path(&self, hash: crate::hash::Hash, uuid: &[u8; 16]) -> (r: String)
        ensures
            r@ == join(
                self.partial_path@,
                name_text(FileNameView::PartialOutboard(hash.0@, uuid@)),
            ),
    {
        let name = FileName::PartialOutboard(hash, *uuid).to_string();
        join_path(self.partial_path.as_str(), name.as_str())
    }

    /// The path of the data file that the store owns for a hash.
    pub open spec fn owned_data_path_spec(&self, hash: crate::hash::Hash) -> Seq<char> {
        join(self.complete_path@, name_text(FileNameView::Data(hash.0@)))
    }

    /// The data file that the store owns for a hash.
    pub fn owned_data_path(&self, hash: &crate::hash::Hash) -> (r: String)
        ensures
            r@ == join(self.complete_path@, name_text(FileNameView::Data(hash.0@))),
    {
        let name = FileName::Data(*hash).to_string();
        join_path(self.complete_path.as_str(), name.as_str())
    }

    /// The outboard file that the store owns for a hash.
    pub fn owned_outboard_path(&self, hash: &crate::hash::Hash) -> (r: String)
        ensures
            r@ == join(self.complete_path@, name_text(FileNameView::Outboard(hash.0@))),
    {
        let name = FileName::Outboard(*hash).to_string();
        join_path(self.complete_path.as_str(), name.as_str())
    }

    /// A file in the partial directory for staging an import, named by a
    /// fresh id.
    pub fn temp_path(&self, uuid: &[u8; 16]) -> (r: String)
        ensures
            r@ == join(self.partial_path@, hex_encode(uuid@) + seq!['.', 't', 'e', 'm', 'p']),
    {
        let mut name = hex_string(uuid);
        name.append(".temp");
        proof {
            reveal_strlit(".temp");
        }
        let r = join_path(self.partial_path.as_str(), name.as_str());
        assert(r@ =~= join(self.partial_path@, hex_encode(uuid@) + seq!['.', 't', 'e', 'm', 'p']));
        r
    }
}

/// Whether a blob is known, and how far.
#[derive(Debug, Clone, Copy, PartialEq, Eq, Structural)]
pub enum EntryStatus {
    NotFound,
    Partial,
    Complete,
}

/// The status of a hash from what the store holds of it.
pub open spec fn status_of(transient: bool, complete: bool, partial: bool) -> EntryStatus {
    if transient {
        EntryStatus::Partial
    } else if complete {
        EntryStatus::Complete
    } else if partial {
        EntryStatus::Partial
    } else {
        EntryStatus::NotFound
    }
}

/// The status of a hash from what the store holds of it: a transient
/// partial entry, a complete row, a partial row. A complete row wins over a
/// partial row.
pub fn entry_status(transient: bool, complete: bool, partial: bool) -> (r: EntryStatus)
    ensures
        r == status_of(transient, complete, partial),
{
    if transient {
        EntryStatus::Partial
    } else if complete {
        EntryStatus::Complete
    } else if partial {
        EntryStatus::Partial
    } else {
        EntryStatus::NotFound
    }
}

/// Merges a new complete row into the stored one, or into an empty row when
/// none is stored.
pub fn merge_complete(existing: Option<CompleteEntry>, new: CompleteEntry) -> (r: Result<
    CompleteEntry,
    StoreError,
>)
    requires
        existing matches Some(e) ==> e.wf(),
    ensures
        r matches Ok(e) ==> e.wf(),
        match existing {
            Some(e) => match crate::entry::union_spec(e, new) {
                Ok((size, owned, paths)) => r matches Ok(m) && m.size == size && m.owned_data
                    == owned && m.paths() == paths,
                Err(err) => r == Err::<CompleteEntry, StoreError>(err),
            },
            None => r matches Ok(m) && m.size == new.size && m.owned_data == new.owned_data
                && m.paths() == crate::entry::merge_paths(Seq::empty(), new.paths()),
        },
{
    let mut entry = match existing {
        Some(e) => e,
        None => CompleteEntry::default(),
    };
    proof {
        if existing is None {
            assert(entry.paths() =~= Seq::<Seq<char>>::empty());
        }
    }
    match entry.union_with(new) {
        Ok(()) => Ok(entry),
        Err(e) => Err(e),
    }
}

/// Where the outboard of an import goes.
#[derive(Debug)]
pub enum OutboardPlacement {
    /// The blob needs no outboard.
    Absent,
    /// The outboard is small enough to be kept in the index.
    Inline,
    /// The outboard is written to this staging file, then renamed.
    File(String),
}

/// What committing an import does.
#[derive(Debug)]
pub struct ImportPlan {
    /// where the outboard goes
    pub outboard: OutboardPlacement,
    /// true when the data itself is kept in the index
    pub inline_data: bool,
    /// the staged data file and where it is renamed to, for owned data
    pub data_move: Option<(String, String)>,
    /// the staged outboard file and where it is renamed to
    pub outboard_move: Option<(String, String)>,
    /// the complete row to merge into the index
    pub entry: CompleteEntry,
}

/// Plans the commit of an import of `size` bytes hashing to `hash`, whose
/// computed outboard has `outboard_len` bytes (none for a blob without a
/// tree). `uuid` names the staging file of a large outboard.
pub fn plan_import(
    options: &Options,
    hash: crate::hash::Hash,
    size: u64,
    outboard_len: Option<u64>,
    file: ImportData,
    uuid: [u8; 16],
) -> (r: ImportPlan)
    ensures
        r.entry.wf(),
        r.entry.size == size,
        match outboard_len {
            None => r.outboard is Absent && r.inline_data && r.outboard_move is None,
            Some(n) => !r.inline_data && (if n <= options.outboard_inline_threshold {
                r.outboard is Inline && r.outboard_move is None
            } else {
                (r.outboard matches OutboardPlacement::File(p) && p@ == join(
                    options.partial_path@,
                    name_text(FileNameView::PartialOutboard(hash.0@, uuid@)),
                )) && (r.outboard_move matches Some((from, to)) && from@ == join(
                    options.partial_path@,
                    name_text(FileNameView::PartialOutboard(hash.0@, uuid@)),
                ) && to@ == join(options.complete_path@, name_text(FileNameView::Outboard(hash.0@))))
            }),
        },
        match file {
            ImportData::External(p) => !r.entry.owned_data && r.entry.paths() == seq![p@]
                && r.data_move is None,
            ImportData::TempFile(p) => r.entry.owned_data && r.entry.paths().len() == 0 && (
            r.data_move matches Some((from, to)) && from@ == p@ && to@ == join(
                options.complete_path@,
                name_text(FileNameView::Data(hash.0@)),
            )),
        },
{
    let (outboard, outboard_move, inline_data) = match outboard_len {
        Some(n) => {
            if n <= options.outboard_inline_threshold {
                (OutboardPlacement::Inline, None, false)
            } else {
                let temp = options.partial_outboard_path(hash, &uuid);
                let target = options.owned_outboard_path(&hash);
                let from = temp.clone();
                (OutboardPlacement::File(temp), Some((from, target)), false)
            }
        },
        None => (OutboardPlacement::Absent, None, true),
    };
    let (entry, data_move) = match file {
        ImportData::External(path) => (CompleteEntry::new_external(size, path), None),
        ImportData::TempFile(path) => {
            let target = options.owned_data_path(&hash);
            (CompleteEntry::new_default(size), Some((path, target)))
        },
    };
    ImportPlan { outboard, inline_data, data_move, outboard_move, entry }
}

/// What happens to the outboard file when a partial entry is promoted.
#[derive(Debug)]
pub enum OutboardAction {
    /// There is no outboard file.
    Absent,
    /// The file is read into the index, then deleted.
    Inline(String),
    /// The file is renamed to the first path.
    Rename(String, String),
}

/// What promoting a partial entry to a complete one does.
#[derive(Debug)]
pub enum PromotionPlan {
    /// The entry is in memory: its bytes go into the index.
    Memory,
    /// The entry is on disk: the partial row goes, the data file is renamed,
    /// the outboard is handled.
    File { data_from: String, data_to: String, outboard: OutboardAction },
}

/// Plans the promotion of a partial entry to a complete one.
pub fn plan_promotion(options: &Options, entry: &PartialEntry) -> (r: PromotionPlan)
    ensures
        entry.data is Mem ==> r is Memory,
        entry.data matches MemOrFileHandle::File(f) ==> r matches PromotionPlan::File {
            data_from,
            data_to,
            outboard,
        } && data_from@ == f.0@ && data_to@ == join(
            options.complete_path@,
            name_text(FileNameView::Data(entry.hash.0@)),
        ) && match entry.outboard {
            None => outboard is Absent,
            Some(o) => if outboard_len(entry.size) <= options.outboard_inline_threshold {
                outboard matches OutboardAction::Inline(p) && p@ == o.0@
            } else {
                outboard matches OutboardAction::Rename(from, to) && from@ == o.0@ && to@ == join(
                    options.complete_path@,
                    name_text(FileNameView::Outboard(entry.hash.0@)),
                )
            },
        },
{
    match &entry.data {
        MemOrFileHandle::Mem => PromotionPlan::Memory,
        MemOrFileHandle::File(temp) => {
            let data_to = options.owned_data_path(&entry.hash);
            let outboard = match &entry.outboard {
                None => OutboardAction::Absent,
                Some(o) => {
                    if outboard_size(entry.size) <= options.outboard_inline_threshold {
                        OutboardAction::Inline(o.0.clone())
                    } else {
                        OutboardAction::Rename(o.0.clone(), options.owned_outboard_path(&entry.hash))
                    }
                },
            };
            PromotionPlan::File { data_from: temp.0.clone(), data_to, outboard }
        },
    }
}

/// How an export is asked to treat the target.
#[derive(Debug, Clone, Copy, PartialEq, Eq, Structural)]
pub enum ExportMode {
    /// Copy the data; the store keeps its own.
    Copy,
    /// The caller keeps the target stable: the store may move its file there
    /// and refer to it.
    TryReference,
}

/// What an export does.
#[derive(Debug)]
pub enum ExportPlan {
    /// The data is inline in the index: write it to the target.
    WriteInline,
    /// Rename the owned file to the target, and refer to the target instead.
    Move { source: String },
    /// Copy the source to the target; with `record`, refer to the target too.
    Copy { source: String, record: bool },
}

/// True for a path that starts at the root.
pub open spec fn is_absolute(p: Seq<char>) -> bool {
    p.len() > 0 && p[0] == '/'
}

/// True for a path that has a parent directory: one that holds something
/// besides slashes.
pub open spec fn has_parent(p: Seq<char>) -> bool {
    exists|i: int| 0 <= i < p.len() && p[i] != '/'
}

/// The outcome of planning an export of a blob to `target`.
pub open spec fn export_outcome(
    options: &Options,
    hash: crate::hash::Hash,
    target: Seq<char>,
    mode: ExportMode,
    inline: bool,
    entry: Option<&CompleteEntry>,
    r: Result<ExportPlan, StoreError>,
) -> bool {
    if !is_absolute(target) {
        r == Err::<ExportPlan, StoreError>(StoreError::NotAbsolute)
    } else if !has_parent(target) {
        r == Err::<ExportPlan, StoreError>(StoreError::NoParent)
    } else if inline {
        r matches Ok(ExportPlan::WriteInline)
    } else {
        match entry {
            None => r == Err::<ExportPlan, StoreError>(StoreError::HashNotFound),
            Some(e) => if !e.owned_data && e.external@.len() == 0 {
                r == Err::<ExportPlan, StoreError>(StoreError::NoValidPath)
            } else {
                let source = if e.owned_data {
                    join(options.complete_path@, name_text(FileNameView::Data(hash.0@)))
                } else {
                    e.external@[0]@
                };
                if mode == ExportMode::TryReference && e.owned_data && e.size
                    >= options.move_threshold {
                    r matches Ok(ExportPlan::Move { source: s }) && s@ == source
                } else {
                    r matches Ok(ExportPlan::Copy { source: s, record }) && s@ == source
                        && record == (mode == ExportMode::TryReference)
                }
            },
        }
    }
}

/// Whether the path holds a character other than a slash.
fn has_non_slash(p: &str) -> (r: bool)
    ensures
        r == has_parent(p@),
{
    let n = p.unicode_len();
    let mut i: usize = 0;
    while i < n
        invariant
            i <= n,
            n == p@.len(),
            forall|j: int| 0 <= j < i ==> p@[j] == '/',
        decreases n - i,
    {
        if p.get_char(i) != '/' {
            return true;
        }
        i = i + 1;
    }
    false
}

/// Plans an export of a blob to `target`, from whether its data is inline in
/// the index and its complete row.
pub fn plan_export(
    options: &Options,
    hash: crate::hash::Hash,
    target: &str,
    mode: ExportMode,
    inline: bool,
    entry: Option<&CompleteEntry>,
) -> (r: Result<ExportPlan, StoreError>)
    ensures
        export_outcome(options, hash, target@, mode, inline, entry, r),
{
    let n = target.unicode_len();
    if n == 0 || target.get_char(0) != '/' {
        return Err(StoreError::NotAbsolute);
    }
    if !has_non_slash(target) {
        return Err(StoreError::NoParent);
    }
    if inline {
        return Ok(ExportPlan::WriteInline);
    }
    let e = match entry {
        Some(e) => e,
        None => return Err(StoreError::HashNotFound),
    };
    let source = if e.owned_data {
        options.owned_data_path(&hash)
    } else {
        match e.external_path() {
            Some(p) => p.clone(),
            None => return Err(StoreError::NoValidPath),
        }
    };
    if mode == ExportMode::TryReference && e.owned_data && e.size >= options.move_threshold {
        Ok(ExportPlan::Move { source })
    } else {
        Ok(ExportPlan::Copy { source, record: mode == ExportMode::TryReference })
    }
}

/// Records an exported target in a complete row. After a move the store no
/// longer owns the data; after a copy it keeps what it had.
pub fn record_export(entry: &mut CompleteEntry, target: String, moved: bool)
    requires
        old(entry).wf(),
    ensures
        final(entry).wf(),
        final(entry).size == old(entry).size,
        final(entry).owned_data == (old(entry).owned_data && !moved),
        final(entry).paths().to_set() == old(entry).paths().to_set().insert(target@),
{
    let ghost before = entry.paths();
    if !crate::entry::contains_text(&entry.external, &target) {
        entry.external.push(target);
        proof {
            assert(entry.paths() =~= before.push(target@));
            assert(entry.paths().to_set() =~= before.to_set().insert(target@)) by {
                assert forall|y| entry.paths().to_set().contains(y) implies before.to_set().insert(target@).contains(y) by {
                    let i = choose|i: int| 0 <= i < entry.paths().len() && entry.paths()[i] == y;
                    if i < before.len() {
                        assert(before[i] == y);
                    }
                }
                assert forall|y| before.to_set().insert(target@).contains(y) implies entry.paths().to_set().contains(y) by {
                    if y == target@ {
                        assert(entry.paths()[before.len() as int] == y);
                    } else {
                        let i = choose|i: int| 0 <= i < before.len() && before[i] == y;
                        assert(entry.paths()[i] == y);
                    }
                }
            }
        }
    } else {
        assert(before.to_set().insert(target@) =~= before.to_set());
    }
    if moved {
        entry.owned_data = false;
    }
}

/// The partial data file of a removed partial row.
pub open spec fn partial_data_files(
    options: &Options,
    hash: crate::hash::Hash,
    partial: Option<PartialEntryData>,
) -> Seq<Seq<char>> {
    match partial {
        Some(p) => seq![
            join(options.partial_path@, name_text(FileNameView::PartialData(hash.0@, p.uuid@))),
        ],
        None => Seq::empty(),
    }
}

/// The partial outboard file of a removed partial row. It is listed whatever
/// the row's size: removing a file that is not there does no harm.
pub open spec fn partial_outboard_files(
    options: &Options,
    hash: crate::hash::Hash,
    partial: Option<PartialEntryData>,
) -> Seq<Seq<char>> {
    match partial {
        Some(p) => seq![
            join(options.partial_path@, name_text(FileNameView::PartialOutboard(hash.0@, p.uuid@))),
        ],
        None => Seq::empty(),
    }
}

/// The files that deleting a hash removes.
#[derive(Debug)]
pub struct DeletePlan {
    pub data: Vec<String>,
    pub outboard: Vec<String>,
    pub partial_data: Vec<String>,
    pub partial_outboard: Vec<String>,
}

impl DeletePlan {
    pub fn new() -> (r: DeletePlan)
        ensures
            r.data@.len() == 0,
            r.outboard@.len() == 0,
            r.partial_data@.len() == 0,
            r.partial_outboard@.len() == 0,
    {
        DeletePlan {
            data: Vec::new(),
            outboard: Vec::new(),
            partial_data: Vec::new(),
            partial_outboard: Vec::new(),
        }
    }

    /// Adds the files of a hash whose complete and partial rows were removed:
    /// the owned data file, the owned outboard file of a blob that needs one,
    /// and both partial files of the partial row.
    pub fn add(
        &mut self,
        options: &Options,
        hash: crate::hash::Hash,
        complete: Option<&CompleteEntry>,
        partial: Option<PartialEntryData>,
    )
        ensures
            final(self).data@.map_values(|s: String| s@) == old(self).data@.map_values(
                |s: String| s@,
            ) + (if complete matches Some(e) && e.owned_data {
                seq![join(options.complete_path@, name_text(FileNameView::Data(hash.0@)))]
            } else {
                Seq::empty()
            }),
            final(self).outboard@.map_values(|s: String| s@) == old(self).outboard@.map_values(
                |s: String| s@,
            ) + (if complete matches Some(e) && e.size > BLOCK_SIZE {
                seq![join(options.complete_path@, name_text(FileNameView::Outboard(hash.0@)))]
            } else {
                Seq::empty()
            }),
            final(self).partial_data@.map_values(|s: String| s@) == old(
                self,
            ).partial_data@.map_values(|s: String| s@) + partial_data_files(options, hash, partial),
            final(self).partial_outboard@.map_values(|s: String| s@) == old(
                self,
            ).partial_outboard@.map_values(|s: String| s@) + partial_outboard_files(options, hash, partial),
    {
        let ghost d0 = self.data@;
        let ghost o0 = self.outboard@;
        let ghost pd0 = self.partial_data@;
        let ghost po0 = self.partial_outboard@;
        if let Some(e) = complete {
            if e.owned_data {
                self.data.push(options.owned_data_path(&hash));
            }
            if needs_outboard(e.size) {
                self.outboard.push(options.owned_outboard_path(&hash));
            }
        }
        if let Some(p) = partial {
            self.partial_data.push(options.partial_data_path(hash, &p.uuid));
            self.partial_outboard.push(options.partial_outboard_path(hash, &p.uuid));
        }
        assert(self.data@.map_values(|s: String| s@) =~= d0.map_values(|s: String| s@) + (
        if complete matches Some(e) && e.owned_data {
            seq![join(options.complete_path@, name_text(FileNameView::Data(hash.0@)))]
        } else {
            Seq::empty()
        }));
        assert(self.outboard@.map_values(|s: String| s@) =~= o0.map_values(|s: String| s@) + (
        if complete matches Some(e) && e.size > BLOCK_SIZE {
            seq![join(options.complete_path@, name_text(FileNameView::Outboard(hash.0@)))]
        } else {
            Seq::empty()
        }));
        assert(self.partial_data@.map_values(|s: String| s@) =~= pd0.map_values(|s: String| s@) + partial_data_files(options, hash, partial));
        assert(self.partial_outboard@.map_values(|s: String| s@) =~= po0.map_values(
            |s: String| s@,
        ) + partial_outboard_files(options, hash, partial));
    }
}

/// The outboard of a complete blob: none needed below one chunk group (the
/// size in eight bytes stands for it), else the inline bytes or the owned
/// file.
pub open spec fn complete_outboard_ok(
    options: &Options,
    hash: crate::hash::Hash,
    size: u64,
    inline_outboard: Option<Vec<u8>>,
    o: MemOrFile<Vec<u8>, String>,
) -> bool {
    if size <= BLOCK_SIZE {
        o matches MemOrFile::Mem(b) && b@ == le_bytes(size as nat, 8)
    } else {
        match inline_outboard {
            Some(ib) => o matches MemOrFile::Mem(b) && b@ == ib@,
            None => o matches MemOrFile::File(p) && p@ == join(
                options.complete_path@,
                name_text(FileNameView::Outboard(hash.0@)),
            ),
        }
    }
}

/// The data of a complete blob: the inline bytes, else the owned file, else
/// the first external path.
pub open spec fn complete_data_ok(
    options: &Options,
    hash: crate::hash::Hash,
    entry: &CompleteEntry,
    inline_data: Option<Vec<u8>>,
    d: MemOrFile<Vec<u8>, (String, u64)>,
) -> bool {
    match inline_data {
        Some(ib) => d matches MemOrFile::Mem(b) && b@ == ib@,
        None => d matches MemOrFile::File((p, sz)) && sz == entry.size && p@ == (if entry.owned_data {
            join(options.complete_path@, name_text(FileNameView::Data(hash.0@)))
        } else {
            entry.external@[0]@
        }),
    }
}

/// True when a complete entry can be built from a row: its data is inline,
/// owned, or at an external path.
pub open spec fn complete_reachable(entry: &CompleteEntry, inline_data: bool) -> bool {
    inline_data || entry.owned_data || entry.external@.len() > 0
}

/// The entry of a complete blob from its row and its inline bytes.
pub fn complete_entry(
    options: &Options,
    hash: crate::hash::Hash,
    entry: &CompleteEntry,
    inline_data: Option<Vec<u8>>,
    inline_outboard: Option<Vec<u8>>,
) -> (r: Result<Entry, StoreError>)
    ensures
        !complete_reachable(entry, inline_data is Some) ==> r == Err::<Entry, StoreError>(
            StoreError::NoValidPath,
        ),
        complete_reachable(entry, inline_data is Some) ==> (r matches Ok(e) && e.hash == hash
            && e.is_complete && complete_data_ok(options, hash, entry, inline_data, e.entry.data)
            && complete_outboard_ok(options, hash, entry.size, inline_outboard, e.entry.outboard)),
{
    let ghost id = inline_data;
    let ghost io = inline_outboard;
    let size = entry.size;
    let outboard = if needs_outboard(size) {
        match inline_outboard {
            Some(b) => MemOrFile::Mem(b),
            None => MemOrFile::File(options.owned_outboard_path(&hash)),
        }
    } else {
        MemOrFile::Mem(size_outboard(size))
    };
    let data = match inline_data {
        Some(b) => MemOrFile::Mem(b),
        None => {
            let path = if entry.owned_data {
                options.owned_data_path(&hash)
            } else {
                match entry.external_path() {
                    Some(p) => p.clone(),
                    None => return Err(StoreError::NoValidPath),
                }
            };
            MemOrFile::File((path, size))
        },
    };
    Ok(Entry { hash, entry: EntryData { data, outboard }, is_complete: true })
}

/// The entry of a hash, looked up in the order the store uses: a transient
/// partial entry (its size and the bytes so far), then the complete row with
/// its inline data and outboard, then the partial row.
pub fn resolve_get(
    options: &Options,
    hash: crate::hash::Hash,
    transient: Option<(u64, Vec<u8>)>,
    complete: Option<(&CompleteEntry, Option<Vec<u8>>, Option<Vec<u8>>)>,
    partial: Option<PartialEntryData>,
) -> (r: Result<Option<Entry>, StoreError>)
    ensures
        match transient {
            Some((size, bytes)) => r matches Ok(Some(e)) && e.hash == hash && !e.is_complete && (
            e.entry.data matches MemOrFile::Mem(b) && b@ == bytes@) && (
            e.entry.outboard matches MemOrFile::Mem(o) && o@ == le_bytes(size as nat, 8)),
            None => match complete {
                Some((entry, id, io)) => if complete_reachable(entry, id is Some) {
                    r matches Ok(Some(e)) && e.hash == hash && e.is_complete && complete_data_ok(
                        options,
                        hash,
                        entry,
                        id,
                        e.entry.data,
                    ) && complete_outboard_ok(options, hash, entry.size, io, e.entry.outboard)
                } else {
                    r == Err::<Option<Entry>, StoreError>(StoreError::NoValidPath)
                },
                None => match partial {
                    Some(p) => r matches Ok(Some(e)) && e.hash == hash && !e.is_complete && (
                    e.entry.data matches MemOrFile::File((dp, sz)) && sz == p.size && dp@ == join(
                        options.partial_path@,
                        name_text(FileNameView::PartialData(hash.0@, p.uuid@)),
                    )) && (e.entry.outboard matches MemOrFile::File(op) && op@ == join(
                        options.partial_path@,
                        name_text(FileNameView::PartialOutboard(hash.0@, p.uuid@)),
                    )),
                    None => r matches Ok(None),
                },
            },
        },
{
    if let Some((size, bytes)) = transient {
        return Ok(
            Some(
                Entry {
                    hash,
                    is_complete: false,
                    entry: EntryData {
                        data: MemOrFile::Mem(bytes),
                        outboard: MemOrFile::Mem(size_outboard(size)),
                    },
                },
            ),
        );
    }
    if let Some((entry, inline_data, inline_outboard)) = complete {
        return match complete_entry(options, hash, entry, inline_data, inline_outboard) {
            Ok(e) => Ok(Some(e)),
            Err(err) => Err(err),
        };
    }
    if let Some(p) = partial {
        let data_path = options.partial_data_path(hash, &p.uuid);
        let outboard_path = options.partial_outboard_path(hash, &p.uuid);
        return Ok(
            Some(
                Entry {
                    hash,
                    is_complete: false,
                    entry: EntryData {
                        data: MemOrFile::File((data_path, p.size)),
                        outboard: MemOrFile::File(outboard_path),
                    },
                },
            ),
        );
    }
    Ok(None)
}

/// An entry that may be complete or partial.
#[derive(Debug)]
pub enum PossiblyPartialEntry {
    Complete(Entry),
    Partial(PartialEntry),
    NotFound,
}

/// The partial entry of a partial row: data and, for a blob that needs one,
/// outboard files named by the row's id.
pub open spec fn partial_row_entry_ok(
    options: &Options,
    hash: crate::hash::Hash,
    p: PartialEntryData,
    e: PartialEntry,
) -> bool {
    &&& e.hash == hash
    &&& e.size == p.size
    &&& e.data matches MemOrFileHandle::File(f) && f.0@ == join(
        options.partial_path@,
        name_text(FileNameView::PartialData(hash.0@, p.uuid@)),
    )
    &&& if p.size > BLOCK_SIZE {
        e.outboard matches Some(o) && o.0@ == join(
            options.partial_path@,
            name_text(FileNameView::PartialOutboard(hash.0@, p.uuid@)),
        )
    } else {
        e.outboard is None
    }
}

/// The entry of a hash for a writer: a transient partial entry (its size),
/// then the partial row, then the complete row, which gives nothing when it
/// cannot be built.
pub fn resolve_possibly_partial(
    options: &Options,
    hash: crate::hash::Hash,
    transient: Option<u64>,
    partial: Option<PartialEntryData>,
    complete: Option<(&CompleteEntry, Option<Vec<u8>>, Option<Vec<u8>>)>,
) -> (r: PossiblyPartialEntry)
    ensures
        match transient {
            Some(size) => r matches PossiblyPartialEntry::Partial(e) && e.hash == hash && e.size
                == size && e.data is Mem && e.outboard is None,
            None => match partial {
                Some(p) => r matches PossiblyPartialEntry::Partial(e) && partial_row_entry_ok(
                    options,
                    hash,
                    p,
                    e,
                ),
                None => match complete {
                    Some((entry, id, io)) => if complete_reachable(entry, id is Some) {
                        r matches PossiblyPartialEntry::Complete(e) && e.hash == hash
                            && e.is_complete && complete_data_ok(
                            options,
                            hash,
                            entry,
                            id,
                            e.entry.data,
                        ) && complete_outboard_ok(options, hash, entry.size, io, e.entry.outboard)
                    } else {
                        r is NotFound
                    },
                    None => r is NotFound,
                },
            },
        },
{
    if let Some(size) = transient {
        return PossiblyPartialEntry::Partial(
            PartialEntry { hash, size, data: MemOrFileHandle::Mem, outboard: None },
        );
    }
    if let Some(p) = partial {
        return PossiblyPartialEntry::Partial(partial_row_entry(options, hash, p));
    }
    if let Some((entry, inline_data, inline_outboard)) = complete {
        return match complete_entry(options, hash, entry, inline_data, inline_outboard) {
            Ok(e) => PossiblyPartialEntry::Complete(e),
            Err(_) => PossiblyPartialEntry::NotFound,
        };
    }
    PossiblyPartialEntry::NotFound
}

/// The partial entry of a partial row.
pub fn partial_row_entry(options: &Options, hash: crate::hash::Hash, p: PartialEntryData) -> (r:
    PartialEntry)
    ensures
        partial_row_entry_ok(options, hash, p, r),
{
    let data = MemOrFileHandle::File(FileHandle::new(options.partial_data_path(hash, &p.uuid)));
    let outboard = if needs_outboard(p.size) {
        Some(FileHandle::new(options.partial_outboard_path(hash, &p.uuid)))
    } else {
        None
    };
    PartialEntry { hash, size: p.size, data, outboard }
}

/// The partial entry of a download into files: the data and the outboard
/// files named by the row's id, whatever the size the row holds.
pub open spec fn partial_files_entry_ok(
    options: &Options,
    hash: crate::hash::Hash,
    p: PartialEntryData,
    e: PartialEntry,
) -> bool {
    &&& e.hash == hash
    &&& e.size == p.size
    &&& e.data matches MemOrFileHandle::File(f) && f.0@ == join(
        options.partial_path@,
        name_text(FileNameView::PartialData(hash.0@, p.uuid@)),
    )
    &&& e.outboard matches Some(o) && o.0@ == join(
        options.partial_path@,
        name_text(FileNameView::PartialOutboard(hash.0@, p.uuid@)),
    )
}

/// The partial entry of a download into files.
fn partial_files_entry(options: &Options, hash: crate::hash::Hash, p: PartialEntryData) -> (r:
    PartialEntry)
    ensures
        partial_files_entry_ok(options, hash, p, r),
{
    let data = MemOrFileHandle::File(FileHandle::new(options.partial_data_path(hash, &p.uuid)));
    let outboard = Some(FileHandle::new(options.partial_outboard_path(hash, &p.uuid)));
    PartialEntry { hash, size: p.size, data, outboard }
}

/// Gets or creates the partial entry of a blob of `size` bytes, and marks
/// the hash live. A blob that needs no outboard gets a transient entry in
/// memory; a larger one uses the stored partial row, or a new row with the
/// id `uuid`, which is given back to be inserted.
pub fn get_or_create_partial(
    state: &mut State,
    options: &Options,
    hash: crate::hash::Hash,
    size: u64,
    existing: Option<PartialEntryData>,
    uuid: [u8; 16],
) -> (r: (PartialEntry, Option<PartialEntryData>))
    ensures
        final(state).live_view() == old(state).live_view().insert(hash.0@),
        final(state).temp == old(state).temp,
        size <= BLOCK_SIZE ==> {
            &&& r.0.hash == hash && r.0.size == size && r.0.data is Mem && r.0.outboard is None
            &&& r.1 is None
            &&& final(state).partial_view() == if old(state).partial_view().contains_key(
                hash.0@,
            ) {
                old(state).partial_view()
            } else {
                old(state).partial_view().insert(hash.0@, size)
            }
        },
        size > BLOCK_SIZE ==> {
            &&& final(state).partial_view() == old(state).partial_view()
            &&& match existing {
                Some(p) => r.1 is None && partial_files_entry_ok(options, hash, p, r.0),
                None => r.1 == Some(PartialEntryData { size, uuid }) && partial_files_entry_ok(
                    options,
                    hash,
                    PartialEntryData { size, uuid },
                    r.0,
                ),
            }
        },
{
    state.insert_live(hash);
    if !needs_outboard(size) {
        state.get_or_insert_partial(hash, size);
        (PartialEntry { hash, size, data: MemOrFileHandle::Mem, outboard: None }, None)
    } else {
        match existing {
            Some(p) => (partial_files_entry(options, hash, p), None),
            None => {
                let p = PartialEntryData::new(size, uuid);
                (partial_files_entry(options, hash, p), Some(p))
            },
        }
    }
}

/// What the stored schema version asks for: `Ok(true)` when none is stored
/// and the current one is to be written, `Ok(false)` when the current one is
/// stored, an error otherwise.
pub fn check_version(stored: Option<&[u8]>) -> (r: Result<bool, StoreError>)
    ensures
        match stored {
            None => r == Ok::<bool, StoreError>(true),
            Some(b) => if b@.len() != 8 {
                r == Err::<bool, StoreError>(StoreError::MalformedVersion)
            } else if be_value(b@) != DB_VERSION {
                r == Err::<bool, StoreError>(StoreError::UnsupportedVersion)
            } else {
                r == Ok::<bool, StoreError>(false)
            },
        },
{
    match stored {
        None => Ok(true),
        Some(b) => {
            if b.len() != 8 {
                Err(StoreError::MalformedVersion)
            } else if u64_from_be(b) != DB_VERSION {
                Err(StoreError::UnsupportedVersion)
            } else {
                Ok(false)
            }
        },
    }
}

/// The stored form of the schema version: eight bytes, most significant
/// first.
pub fn version_bytes() -> (r: Vec<u8>)
    ensures
        r@.len() == 8,
        be_value(r@) == DB_VERSION,
{
    u64_be_bytes(DB_VERSION)
}

/// A store directory that has data but no index database is in the layout
/// that predates the index, and is migrated.
pub fn needs_migration(db_exists: bool, complete_exists: bool, partial_exists: bool, meta_exists: bool) -> (r: bool)
    ensures
        r == (!db_exists && (complete_exists || partial_exists || meta_exists)),
{
    !db_exists && (complete_exists || partial_exists || meta_exists)
}

/// A complete row as size, ownership and set of external paths.
pub open spec fn row_view(e: &CompleteEntry) -> (u64, bool, Set<Seq<char>>) {
    (e.size, e.owned_data, e.paths().to_set())
}

/// The row of a hash after a rescan: the stored row keeps its external
/// paths, as not owned, merged into what the files say; without external
/// paths the files alone decide.
pub open spec fn sync_spec(
    scanned: Option<(u64, bool, Set<Seq<char>>)>,
    stored: Option<(u64, bool, Set<Seq<char>>)>,
) -> Result<Option<(u64, bool, Set<Seq<char>>)>, StoreError> {
    match stored {
        Some(st) => if st.2.is_empty() {
            Ok(scanned)
        } else {
            let base = match scanned {
                Some(sc) => sc,
                None => (0u64, false, Set::<Seq<char>>::empty()),
            };
            if base.0 != 0 && base.0 != st.0 {
                Err(StoreError::SizeMismatch)
            } else {
                Ok(Some((st.0, base.1, base.2.union(st.2))))
            }
        },
        None => Ok(scanned),
    }
}

/// The row of a hash after a rescan, from the row the files give and the
/// stored row.
pub fn sync_row(scanned: Option<CompleteEntry>, stored: Option<&CompleteEntry>) -> (r: Result<
    Option<CompleteEntry>,
    StoreError,
>)
    requires
        scanned matches Some(e) ==> e.wf(),
        stored matches Some(e) ==> e.wf(),
    ensures
        match sync_spec(
            match scanned {
                Some(e) => Some(row_view(&e)),
                None => None,
            },
            match stored {
                Some(e) => Some(row_view(e)),
                None => None,
            },
        ) {
            Ok(Some(v)) => r matches Ok(Some(e)) && row_view(&e) == v && e.wf(),
            Ok(None) => r matches Ok(None),
            Err(err) => r == Err::<Option<CompleteEntry>, StoreError>(err),
        },
{
    match stored {
        Some(st) => {
            if st.external.len() == 0 {
                proof {
                    assert(st.paths().to_set() =~= Set::empty());
                }
                return Ok(scanned);
            }
            proof {
                assert(st.paths().to_set().contains(st.paths()[0]));
            }
            let mut external: Vec<String> = Vec::new();
            let mut i: usize = 0;
            while i < st.external.len()
                invariant
                    i <= st.external@.len(),
                    forall|k: int| 0 <= k < i ==> external@[k]@ == st.external@[k]@,
                    external@.len() == i,
                decreases st.external@.len() - i,
            {
                external.push(st.external[i].clone());
                i = i + 1;
            }
            let incoming = CompleteEntry { size: st.size, owned_data: false, external };
            assert(incoming.paths() =~= st.paths());
            let ghost sc = scanned;
            let merged = merge_complete(scanned, incoming);
            proof {
                match sc {
                    Some(e) => {
                        crate::entry::lemma_merge_paths(e.paths(), st.paths());
                    },
                    None => {
                        crate::entry::lemma_merge_paths(Seq::empty(), st.paths());
                        assert(Seq::<Seq<char>>::empty().to_set() =~= Set::empty());
                    },
                }
            }
            match merged {
                Ok(e) => Ok(Some(e)),
                Err(err) => Err(err),
            }
        },
        None => Ok(scanned),
    }
}

/// Rescanning twice gives the rows of rescanning once: the second merge,
/// of the files' row with the row the first one stored, changes nothing.
pub proof fn lemma_sync_idempotent(
    scanned: Option<(u64, bool, Set<Seq<char>>)>,
    stored: Option<(u64, bool, Set<Seq<char>>)>,
)
    requires
        sync_spec(scanned, stored) is Ok,
    ensures
        sync_spec(scanned, sync_spec(scanned, stored)->Ok_0) == sync_spec(scanned, stored),
{
    let first = sync_spec(scanned, stored)->Ok_0;
    if let Some(f) = first {
        if !f.2.is_empty() {
            let base = match scanned {
                Some(sc) => sc,
                None => (0u64, false, Set::<Seq<char>>::empty()),
            };
            match stored {
                Some(st) => {
                    if !st.2.is_empty() {
                        assert(base.2.union(f.2) =~= f.2);
                    } else {
                        assert(base.2.union(f.2) =~= f.2);
                    }
                },
                None => {
                    assert(base.2.union(f.2) =~= f.2);
                },
            }
        }
    }
}

/// The index that a list of complete rows stands for; a later row for a
/// hash overrides an earlier one.
pub open spec fn rows_map(v: Seq<(crate::hash::Hash, CompleteEntry)>) -> Map<
    Seq<u8>,
    (u64, bool, Set<Seq<char>>),
>
    decreases v.len(),
{
    if v.len() == 0 {
        Map::empty()
    } else {
        rows_map(v.drop_last()).insert(v.last().0.0@, row_view(&v.last().1))
    }
}

/// No hash has two rows.
pub open spec fn keys_distinct(v: Seq<(crate::hash::Hash, CompleteEntry)>) -> bool {
    forall|a: int, b: int| 0 <= a < b < v.len() ==> v[a].0.0@ != v[b].0.0@
}

/// Every row keeps each external path once.
pub open spec fn rows_wf(v: Seq<(crate::hash::Hash, CompleteEntry)>) -> bool {
    forall|a: int| 0 <= a < v.len() ==> (#[trigger] v[a]).1.wf()
}

/// The row of a hash in an index, if any.
pub open spec fn row_of(m: Map<Seq<u8>, (u64, bool, Set<Seq<char>>)>, h: Seq<u8>) -> Option<
    (u64, bool, Set<Seq<char>>),
> {
    if m.contains_key(h) {
        Some(m[h])
    } else {
        None
    }
}

/// The rescan merges without a size conflict at any hash.
pub open spec fn sync_ok(
    scanned: Map<Seq<u8>, (u64, bool, Set<Seq<char>>)>,
    stored: Map<Seq<u8>, (u64, bool, Set<Seq<char>>)>,
) -> bool {
    forall|h: Seq<u8>| #[trigger] sync_spec(row_of(scanned, h), row_of(stored, h)) is Ok
}

/// The index after a rescan: at each hash, the row that `sync_spec` gives.
pub open spec fn sync_map(
    scanned: Map<Seq<u8>, (u64, bool, Set<Seq<char>>)>,
    stored: Map<Seq<u8>, (u64, bool, Set<Seq<char>>)>,
) -> Map<Seq<u8>, (u64, bool, Set<Seq<char>>)> {
    Map::new(
        |h: Seq<u8>| sync_spec(row_of(scanned, h), row_of(stored, h)) matches Ok(Some(_)),
        |h: Seq<u8>| sync_spec(row_of(scanned, h), row_of(stored, h))->Ok_0->0,
    )
}

/// Each row of the list is in the index under its hash.
pub open spec fn rows_indexed(v: Seq<(crate::hash::Hash, CompleteEntry)>) -> bool {
    forall|j: int|
        0 <= j < v.len() ==> #[trigger] rows_map(v).contains_key(v[j].0.0@) && rows_map(v)[v[j].0.0@]
            == row_view(&v[j].1)
}

/// Each hash of the index has a row in the list.
pub open spec fn rows_covered(v: Seq<(crate::hash::Hash, CompleteEntry)>) -> bool {
    forall|h: Seq<u8>| #[trigger]
        rows_map(v).contains_key(h) ==> exists|j: int| 0 <= j < v.len() && v[j].0.0@ == h
}

/// With distinct keys, the index holds each row under its hash.
proof fn lemma_rows_map(v: Seq<(crate::hash::Hash, CompleteEntry)>)
    requires
        keys_distinct(v),
    ensures
        rows_indexed(v),
        rows_covered(v),
    decreases v.len(),
{
    if v.len() > 0 {
        let w = v.drop_last();
        assert(keys_distinct(w));
        lemma_rows_map(w);
        assert(rows_map(v) == rows_map(w).insert(v.last().0.0@, row_view(&v.last().1)));
        assert forall|j: int| 0 <= j < v.len() implies #[trigger] rows_map(v).contains_key(v[j].0.0@)
            && rows_map(v)[v[j].0.0@] == row_view(&v[j].1) by {
            if j < v.len() - 1 {
                assert(w[j] == v[j]);
                assert(v[j].0.0@ != v.last().0.0@);
            }
        }
        assert forall|h: Seq<u8>| #[trigger] rows_map(v).contains_key(h) implies exists|j: int|
            0 <= j < v.len() && v[j].0.0@ == h by {
            if h != v.last().0.0@ {
                assert(rows_map(w).contains_key(h));
                let j = choose|j: int| 0 <= j < w.len() && w[j].0.0@ == h;
                assert(v[j] == w[j]);
            } else {
                assert(v[v.len() - 1].0.0@ == h);
            }
        }
    }
}

/// Position of the row of a hash.
fn find_row(v: &Vec<(crate::hash::Hash, CompleteEntry)>, h: &crate::hash::Hash) -> (r: Option<usize>)
    ensures
        r matches Some(j) ==> j < v@.len() && v@[j as int].0.0@ == h.0@,
        r is None ==> forall|j: int| 0 <= j < v@.len() ==> v@[j].0.0@ != h.0@,
{
    let mut j: usize = 0;
    while j < v.len()
        invariant
            j <= v@.len(),
            forall|k: int| 0 <= k < j ==> v@[k].0.0@ != h.0@,
        decreases v@.len() - j,
    {
        if v[j].0 == *h {
            return Some(j);
        }
        j = j + 1;
    }
    None
}

/// A copy of a complete row.
fn copy_entry(e: &CompleteEntry) -> (r: CompleteEntry)
    ensures
        r.size == e.size,
        r.owned_data == e.owned_data,
        r.paths() == e.paths(),
{
    let mut external: Vec<String> = Vec::new();
    let mut i: usize = 0;
    while i < e.external.len()
        invariant
            i <= e.external@.len(),
            external@.len() == i,
            forall|k: int| 0 <= k < i ==> external@[k]@ == e.external@[k]@,
        decreases e.external@.len() - i,
    {
        external.push(e.external[i].clone());
        i = i + 1;
    }
    let r = CompleteEntry { size: e.size, owned_data: e.owned_data, external };
    assert(r.paths() =~= e.paths());
    r
}

/// The rows of the hashes that the files give, each merged with its stored
/// row.
fn sync_scanned_rows(
    scanned: &Vec<(crate::hash::Hash, CompleteEntry)>,
    stored: &Vec<(crate::hash::Hash, CompleteEntry)>,
) -> (r: Result<Vec<(crate::hash::Hash, CompleteEntry)>, StoreError>)
    requires
        keys_distinct(scanned@),
        keys_distinct(stored@),
        rows_wf(scanned@),
        rows_wf(stored@),
    ensures
        match r {
            Ok(v) => {
                &&& v@.len() == scanned@.len()
                &&& rows_wf(v@)
                &&& forall|k: int| 0 <= k < v@.len() ==> (#[trigger] v@[k]).0.0@ == scanned@[k].0.0@
                &&& forall|k: int|
                    0 <= k < v@.len() ==> sync_spec(
                        row_of(rows_map(scanned@), scanned@[k].0.0@),
                        row_of(rows_map(stored@), scanned@[k].0.0@),
                    ) == Ok::<Option<(u64, bool, Set<Seq<char>>)>, StoreError>(
                        Some(row_view(&(#[trigger] v@[k]).1)),
                    )
            },
            Err(e) => e == StoreError::SizeMismatch && !sync_ok(
                rows_map(scanned@),
                rows_map(stored@),
            ),
        },
{
    proof {
        lemma_rows_map(scanned@);
        lemma_rows_map(stored@);
    }
    let mut out: Vec<(crate::hash::Hash, CompleteEntry)> = Vec::new();
    let mut i: usize = 0;
    while i < scanned.len()
        invariant
            i <= scanned@.len(),
            keys_distinct(scanned@),
            keys_distinct(stored@),
            rows_wf(scanned@),
            rows_wf(stored@),
            rows_indexed(scanned@),
            rows_indexed(stored@),
            rows_covered(stored@),
            out@.len() == i,
            rows_wf(out@),
            forall|k: int| 0 <= k < i ==> (#[trigger] out@[k]).0.0@ == scanned@[k].0.0@,
            forall|k: int|
                0 <= k < i ==> sync_spec(
                    row_of(rows_map(scanned@), scanned@[k].0.0@),
                    row_of(rows_map(stored@), scanned@[k].0.0@),
                ) == Ok::<Option<(u64, bool, Set<Seq<char>>)>, StoreError>(
                    Some(row_view(&(#[trigger] out@[k]).1)),
                ),
        decreases scanned@.len() - i,
    {
        let h = scanned[i].0;
        let st = match find_row(stored, &h) {
            Some(j) => Some(&stored[j].1),
            None => None,
        };
        proof {
            assert(rows_map(scanned@).contains_key(scanned@[i as int].0.0@));
            if st is None {
                if rows_map(stored@).contains_key(h.0@) {
                    let j = choose|j: int| 0 <= j < stored@.len() && stored@[j].0.0@ == h.0@;
                }
            } else {
                let j = choose|j: int| 0 <= j < stored@.len() && stored@[j].0.0@ == h.0@ && st == Some(&stored@[j].1);
                assert(rows_map(stored@).contains_key(stored@[j].0.0@));
            }
            assert(scanned@[i as int].1.wf());
        }
        let row = copy_entry(&scanned[i].1);
        match sync_row(Some(row), st) {
            Ok(Some(e)) => {
                out.push((h, e));
                proof {
                    assert(out@[i as int].0.0@ == scanned@[i as int].0.0@);
                }
            },
            Ok(None) => {
                return Err(StoreError::SizeMismatch);
            },
            Err(e) => {
                proof {
                    assert(!(sync_spec(
                        row_of(rows_map(scanned@), h.0@),
                        row_of(rows_map(stored@), h.0@),
                    ) is Ok));
                }
                return Err(e);
            },
        }
        i = i + 1;
    }
    Ok(out)
}

/// The rows of the hashes that only the stored index knows, kept where they
/// have external paths.
fn sync_stored_rows(
    scanned: &Vec<(crate::hash::Hash, CompleteEntry)>,
    stored: &Vec<(crate::hash::Hash, CompleteEntry)>,
) -> (r: Vec<(crate::hash::Hash, CompleteEntry)>)
    requires
        keys_distinct(scanned@),
        keys_distinct(stored@),
        rows_wf(stored@),
    ensures
        keys_distinct(r@),
        rows_wf(r@),
        forall|k: int|
            0 <= k < r@.len() ==> !#[trigger] rows_map(scanned@).contains_key(r@[k].0.0@),
        forall|k: int|
            0 <= k < r@.len() ==> sync_spec(None, row_of(rows_map(stored@), (#[trigger] r@[k]).0.0@))
                == Ok::<Option<(u64, bool, Set<Seq<char>>)>, StoreError>(Some(row_view(&r@[k].1))),
        forall|h: Seq<u8>|
            !rows_map(scanned@).contains_key(h) && (#[trigger] sync_spec(
                None,
                row_of(rows_map(stored@), h),
            ) matches Ok(Some(_))) ==> exists|k: int| 0 <= k < r@.len() && r@[k].0.0@ == h,
{
    proof {
        lemma_rows_map(scanned@);
        lemma_rows_map(stored@);
    }
    let mut out: Vec<(crate::hash::Hash, CompleteEntry)> = Vec::new();
    let mut i: usize = 0;
    while i < stored.len()
        invariant
            i <= stored@.len(),
            keys_distinct(scanned@),
            keys_distinct(stored@),
            rows_wf(stored@),
            rows_indexed(scanned@),
            rows_covered(scanned@),
            rows_indexed(stored@),
            rows_covered(stored@),
            keys_distinct(out@),
            rows_wf(out@),
            forall|k: int|
                0 <= k < out@.len() ==> exists|j: int|
                    0 <= j < i && (#[trigger] out@[k]).0.0@ == stored@[j].0.0@,
            forall|k: int|
                0 <= k < out@.len() ==> !#[trigger] rows_map(scanned@).contains_key(
                    out@[k].0.0@,
                ),
            forall|k: int|
                0 <= k < out@.len() ==> sync_spec(
                    None,
                    row_of(rows_map(stored@), (#[trigger] out@[k]).0.0@),
                ) == Ok::<Option<(u64, bool, Set<Seq<char>>)>, StoreError>(
                    Some(row_view(&out@[k].1)),
                ),
            forall|j: int|
                0 <= j < i && !rows_map(scanned@).contains_key(stored@[j].0.0@) && (sync_spec(
                    None,
                    row_of(rows_map(stored@), stored@[j].0.0@),
                ) matches Ok(Some(_))) ==> exists|k: int|
                    0 <= k < out@.len() && (#[trigger] out@[k]).0.0@ == stored@[j].0.0@,
        decreases stored@.len() - i,
    {
        let h = stored[i].0;
        let in_scan = find_row(scanned, &h);
        let ghost before = out@;
        proof {
            assert(rows_map(stored@).contains_key(stored@[i as int].0.0@));
            if in_scan is None && rows_map(scanned@).contains_key(h.0@) {
                let j = choose|j: int| 0 <= j < scanned@.len() && scanned@[j].0.0@ == h.0@;
            }
            if in_scan is Some {
                let j = in_scan->0;
                assert(rows_map(scanned@).contains_key(scanned@[j as int].0.0@));
            }
            assert(stored@[i as int].1.wf());
        }
        if in_scan.is_none() {
            match sync_row(None, Some(&stored[i].1)) {
                Ok(Some(e)) => {
                    out.push((h, e));
                    proof {
                        assert forall|a: int, b: int|
                            0 <= a < b < out@.len() implies out@[a].0.0@ != out@[b].0.0@ by {
                            if b == out@.len() - 1 {
                                assert(out@[a] == before[a]);
                                let j = choose|j: int|
                                    0 <= j < i && (#[trigger] before[a]).0.0@ == stored@[j].0.0@;
                            } else {
                                assert(out@[a] == before[a]);
                                assert(out@[b] == before[b]);
                            }
                        }
                    }
                },
                _ => {},
            }
        }
        proof {
            assert forall|k: int| 0 <= k < out@.len() implies exists|j: int|
                0 <= j < i + 1 && (#[trigger] out@[k]).0.0@ == stored@[j].0.0@ by {
                if k < before.len() {
                    assert(out@[k] == before[k]);
                    let j = choose|j: int| 0 <= j < i && (#[trigger] before[k]).0.0@ == stored@[j].0.0@;
                } else {
                    assert(out@[k].0.0@ == stored@[i as int].0.0@);
                }
            }
            assert forall|j: int|
                0 <= j < i + 1 && !rows_map(scanned@).contains_key(stored@[j].0.0@) && (sync_spec(
                    None,
                    row_of(rows_map(stored@), stored@[j].0.0@),
                ) matches Ok(Some(_))) implies exists|k: int|
                0 <= k < out@.len() && (#[trigger] out@[k]).0.0@ == stored@[j].0.0@ by {
                if j < i {
                    let k = choose|k: int| 0 <= k < before.len() && (#[trigger] before[k]).0.0@ == stored@[j].0.0@;
                    assert(out@[k] == before[k]);
                } else {
                    assert(out@[out@.len() - 1].0.0@ == stored@[j].0.0@);
                }
            }
        }
        i = i + 1;
    }
    proof {
        assert forall|h: Seq<u8>|
            !rows_map(scanned@).contains_key(h) && (#[trigger] sync_spec(
                None,
                row_of(rows_map(stored@), h),
            ) matches Ok(Some(_))) implies exists|k: int| 0 <= k < out@.len() && out@[k].0.0@ == h by {
            assert(rows_map(stored@).contains_key(h));
            let j = choose|j: int| 0 <= j < stored@.len() && stored@[j].0.0@ == h;
            let k = choose|k: int| 0 <= k < out@.len() && (#[trigger] out@[k]).0.0@ == stored@[j].0.0@;
        }
    }
    out
}

/// The two phases together make the index after a rescan.
proof fn lemma_sync_combine(
    scanned: Seq<(crate::hash::Hash, CompleteEntry)>,
    stored: Seq<(crate::hash::Hash, CompleteEntry)>,
    first: Seq<(crate::hash::Hash, CompleteEntry)>,
    tail: Seq<(crate::hash::Hash, CompleteEntry)>,
)
    requires
        keys_distinct(scanned),
        keys_distinct(stored),
        first.len() == scanned.len(),
        rows_wf(first),
        rows_wf(tail),
        forall|k: int| 0 <= k < first.len() ==> (#[trigger] first[k]).0.0@ == scanned[k].0.0@,
        forall|k: int|
            0 <= k < first.len() ==> sync_spec(
                row_of(rows_map(scanned), scanned[k].0.0@),
                row_of(rows_map(stored), scanned[k].0.0@),
            ) == Ok::<Option<(u64, bool, Set<Seq<char>>)>, StoreError>(
                Some(row_view(&(#[trigger] first[k]).1)),
            ),
        keys_distinct(tail),
        forall|k: int| 0 <= k < tail.len() ==> !#[trigger] rows_map(scanned).contains_key(tail[k].0.0@),
        forall|k: int|
            0 <= k < tail.len() ==> sync_spec(None, row_of(rows_map(stored), (#[trigger] tail[k]).0.0@))
                == Ok::<Option<(u64, bool, Set<Seq<char>>)>, StoreError>(Some(row_view(&tail[k].1))),
        forall|h: Seq<u8>|
            !rows_map(scanned).contains_key(h) && (#[trigger] sync_spec(
                None,
                row_of(rows_map(stored), h),
            ) matches Ok(Some(_))) ==> exists|k: int| 0 <= k < tail.len() && tail[k].0.0@ == h,
    ensures
        sync_ok(rows_map(scanned), rows_map(stored)),
        rows_map(first + tail) == sync_map(rows_map(scanned), rows_map(stored)),
        keys_distinct(first + tail),
        rows_wf(first + tail),
{
    let sm = rows_map(scanned);
    let dm = rows_map(stored);
    let v = first + tail;
    let n = first.len();
    lemma_rows_map(scanned);
    lemma_rows_map(stored);
    assert forall|a: int, b: int| 0 <= a < b < v.len() implies v[a].0.0@ != v[b].0.0@ by {
        if b < n {
            assert(v[a] == first[a]);
            assert(v[b] == first[b]);
            assert(scanned[a].0.0@ != scanned[b].0.0@);
        } else if a < n {
            assert(v[a] == first[a]);
            assert(v[b] == tail[b - n]);
            assert(sm.contains_key(scanned[a].0.0@));
        } else {
            assert(v[a] == tail[a - n]);
            assert(v[b] == tail[b - n]);
        }
    }
    assert forall|a: int| 0 <= a < v.len() implies (#[trigger] v[a]).1.wf() by {
        if a < n {
            assert(v[a] == first[a]);
        } else {
            assert(v[a] == tail[a - n]);
        }
    }
    lemma_rows_map(v);
    assert forall|h: Seq<u8>| #[trigger] sync_spec(row_of(sm, h), row_of(dm, h)) is Ok by {
        if sm.contains_key(h) {
            let j = choose|j: int| 0 <= j < scanned.len() && scanned[j].0.0@ == h;
            assert(first[j].0.0@ == h);
        } else if dm.contains_key(h) {
            let st = dm[h];
            if !st.2.is_empty() {
                assert(sync_spec(None, row_of(dm, h)) matches Ok(Some(_)));
                let k = choose|k: int| 0 <= k < tail.len() && tail[k].0.0@ == h;
            }
        }
    }
    let target = sync_map(sm, dm);
    assert forall|h: Seq<u8>| #[trigger] rows_map(v).contains_key(h) == target.contains_key(h) by {
        if rows_map(v).contains_key(h) {
            let k = choose|k: int| 0 <= k < v.len() && v[k].0.0@ == h;
            if k < n {
                assert(v[k] == first[k]);
                assert(sm.contains_key(scanned[k].0.0@));
            } else {
                assert(v[k] == tail[k - n]);
            }
        }
        if target.contains_key(h) {
            if sm.contains_key(h) {
                let j = choose|j: int| 0 <= j < scanned.len() && scanned[j].0.0@ == h;
                assert(v[j] == first[j]);
                assert(rows_map(v).contains_key(v[j].0.0@));
            } else {
                let k = choose|k: int| 0 <= k < tail.len() && tail[k].0.0@ == h;
                assert(v[n + k] == tail[k]);
                assert(rows_map(v).contains_key(v[n + k].0.0@));
            }
        }
    }
    assert forall|h: Seq<u8>| #[trigger] rows_map(v).contains_key(h) implies rows_map(v)[h] == target[h] by {
        let k = choose|k: int| 0 <= k < v.len() && v[k].0.0@ == h;
        assert(rows_map(v).contains_key(v[k].0.0@));
        if k < n {
            assert(v[k] == first[k]);
            assert(sm.contains_key(scanned[k].0.0@));
        } else {
            assert(v[k] == tail[k - n]);
        }
    }
    assert(rows_map(v) =~= target);
}

/// The index after a rescan: the rows the files give, merged hash by hash
/// with the stored rows as `sync_row` merges them; or the size conflict.
pub fn sync_index(
    scanned: &Vec<(crate::hash::Hash, CompleteEntry)>,
    stored: &Vec<(crate::hash::Hash, CompleteEntry)>,
) -> (r: Result<Vec<(crate::hash::Hash, CompleteEntry)>, StoreError>)
    requires
        keys_distinct(scanned@),
        keys_distinct(stored@),
        rows_wf(scanned@),
        rows_wf(stored@),
    ensures
        match r {
            Ok(v) => sync_ok(rows_map(scanned@), rows_map(stored@)) && rows_map(v@) == sync_map(
                rows_map(scanned@),
                rows_map(stored@),
            ) && keys_distinct(v@) && rows_wf(v@),
            Err(e) => e == StoreError::SizeMismatch && !sync_ok(
                rows_map(scanned@),
                rows_map(stored@),
            ),
        },
{
    let mut first = match sync_scanned_rows(scanned, stored) {
        Ok(v) => v,
        Err(e) => return Err(e),
    };
    let mut tail = sync_stored_rows(scanned, stored);
    let ghost f0 = first@;
    let ghost t0 = tail@;
    first.append(&mut tail);
    proof {
        lemma_sync_combine(scanned@, stored@, f0, t0);
        assert(first@ == f0 + t0);
    }
    Ok(first)
}

/// Rescanning twice gives the index of rescanning once.
pub proof fn lemma_sync_index_idempotent(
    scanned: Map<Seq<u8>, (u64, bool, Set<Seq<char>>)>,
    stored: Map<Seq<u8>, (u64, bool, Set<Seq<char>>)>,
)
    requires
        sync_ok(scanned, stored),
    ensures
        sync_ok(scanned, sync_map(scanned, stored)),
        sync_map(scanned, sync_map(scanned, stored)) == sync_map(scanned, stored),
{
    let once = sync_map(scanned, stored);
    assert forall|h: Seq<u8>| row_of(once, h) == sync_spec(row_of(scanned, h), row_of(stored, h))->Ok_0 by {
        assert(sync_spec(row_of(scanned, h), row_of(stored, h)) is Ok);
    }
    assert forall|h: Seq<u8>| #[trigger] sync_spec(row_of(scanned, h), row_of(once, h)) == sync_spec(row_of(scanned, h), row_of(stored, h)) by {
        assert(sync_spec(row_of(scanned, h), row_of(stored, h)) is Ok);
        lemma_sync_idempotent(row_of(scanned, h), row_of(stored, h));
        assert(row_of(once, h) == sync_spec(row_of(scanned, h), row_of(stored, h))->Ok_0);
    }
    assert(sync_map(scanned, once) =~= once);
}

/// Exporting by reference a large owned blob moves its owned file to the
/// target; once the row records the move (no longer owned, the target its
/// only external path), a lookup reads the blob from the target.
pub proof fn lemma_export_by_reference(
    options: &Options,
    hash: crate::hash::Hash,
    target: Seq<char>,
    entry: &CompleteEntry,
    plan: Result<ExportPlan, StoreError>,
    recorded: CompleteEntry,
)
    requires
        entry.owned_data,
        entry.size >= options.move_threshold,
        is_absolute(target),
        has_parent(target),
        export_outcome(options, hash, target, ExportMode::TryReference, false, Some(entry), plan),
        recorded.wf(),
        recorded.size == entry.size,
        !recorded.owned_data,
        recorded.paths().to_set() == entry.paths().to_set().insert(target),
        entry.external@.len() == 0,
    ensures
        plan matches Ok(ExportPlan::Move { source }) && source@ == options.owned_data_path_spec(hash),
        complete_reachable(&recorded, false),
        forall|d: MemOrFile<Vec<u8>, (String, u64)>|
            #[trigger] complete_data_ok(options, hash, &recorded, None, d) ==> (d matches MemOrFile::File(
                (p, sz),
            ) && p@ == target && sz == entry.size),
{
    let ps = recorded.paths();
    assert(entry.paths().to_set() =~= Set::empty());
    assert(ps.to_set().contains(target));
    let i = choose|i: int| 0 <= i < ps.len() && ps[i] == target;
    assert(ps.to_set().contains(ps[0]));
    assert(ps[0] == target);
    assert(recorded.external@.len() > 0);
}

/// A partial entry filled and promoted becomes complete: the row that
/// merging an owned row of its size into the index gives is one from which a
/// lookup builds a complete entry at the owned path, and once the transient
/// entry is removed (`State::remove_partial`) the hash has the status
/// complete.
pub proof fn lemma_promotion_completes(
    options: &Options,
    hash: crate::hash::Hash,
    size: u64,
    merged: CompleteEntry,
    partial_row: bool,
    before: State,
    after: State,
)
    requires
        merged.size == size,
        merged.owned_data,
        after.partial_view() == before.partial_view().remove(hash.0@),
    ensures
        complete_reachable(&merged, false),
        status_of(after.partial_view().contains_key(hash.0@), true, partial_row)
            == EntryStatus::Complete,
        forall|p: String|
            p@ == options.owned_data_path_spec(hash) ==> #[trigger] complete_data_ok(
                options,
                hash,
                &merged,
                None,
                MemOrFile::File((p, size)),
            ),
{
}

} // verus!
