//! Startup reconciliation: what the files in the store directories say the
//! index should hold, and which files are left over.
use vstd::prelude::*;

use crate::encoding::{le_value, u64_from_le};
use crate::entry::{merge_paths, texts, CompleteEntry, PartialEntryData, BLOCK_SIZE};
use crate::filename::{lemma_parse_view, name_text, parse_view, FileName, FileNameView};
use crate::store::{join, Options};

verus! {

/// The files of the complete directory that belong to one hash.
#[derive(Debug, Clone, Copy)]
pub struct CompleteFiles {
    pub hash: crate::hash::Hash,
    /// an owned data file
    pub data: bool,
    /// an outboard file
    pub outboard: bool,
    /// a legacy list of external paths
    pub paths: bool,
}

/// The files of the partial directory that belong to one hash and id.
#[derive(Debug, Clone, Copy)]
pub struct PartialFiles {
    pub hash: crate::hash::Hash,
    pub uuid: [u8; 16],
    pub data: bool,
    pub outboard: bool,
}

/// The files of both directories, grouped.
#[derive(Debug)]
pub struct FileIndex {
    pub complete: Vec<CompleteFiles>,
    pub partial: Vec<PartialFiles>,
}

/// Some name of the list reads as `f`.
pub open spec fn named(names: Seq<String>, f: FileNameView) -> bool {
    exists|i: int| 0 <= i < names.len() && #[trigger] parse_view(names[i]@) == Some(f)
}

/// The hash of a name of the complete directory that matters there.
pub open spec fn complete_hash_of(f: Option<FileNameView>) -> Option<Seq<u8>> {
    match f {
        Some(FileNameView::Data(h)) => Some(h),
        Some(FileNameView::Outboard(h)) => Some(h),
        Some(FileNameView::Paths(h)) => Some(h),
        _ => None,
    }
}

/// The hash and id of a name of the partial directory that matters there.
pub open spec fn partial_key_of(f: Option<FileNameView>) -> Option<(Seq<u8>, Seq<u8>)> {
    match f {
        Some(FileNameView::PartialData(h, u)) => Some((h, u)),
        Some(FileNameView::PartialOutboard(h, u)) => Some((h, u)),
        _ => None,
    }
}

/// A complete group says exactly which of its files the names hold.
pub open spec fn complete_group_ok(names: Seq<String>, g: CompleteFiles) -> bool {
    &&& g.data == named(names, FileNameView::Data(g.hash.0@))
    &&& g.outboard == named(names, FileNameView::Outboard(g.hash.0@))
    &&& g.paths == named(names, FileNameView::Paths(g.hash.0@))
}

/// A partial group says exactly which of its files the names hold.
pub open spec fn partial_group_ok(names: Seq<String>, g: PartialFiles) -> bool {
    &&& g.data == named(names, FileNameView::PartialData(g.hash.0@, g.uuid@))
    &&& g.outboard == named(names, FileNameView::PartialOutboard(g.hash.0@, g.uuid@))
}

impl FileIndex {
    /// One group per hash in the complete directory, one per hash and id in
    /// the partial directory.
    pub open spec fn wf(&self) -> bool {
        &&& forall|a: int, b: int|
            0 <= a < b < self.complete@.len() ==> self.complete@[a].hash.0@
                != self.complete@[b].hash.0@
        &&& forall|a: int, b: int|
            0 <= a < b < self.partial@.len() ==> (self.partial@[a].hash.0@, self.partial@[a].uuid@)
                != (self.partial@[b].hash.0@, self.partial@[b].uuid@)
    }
}

proof fn lemma_named_push(pre: Seq<String>, x: String)
    ensures
        forall|f: FileNameView| #[trigger]
            named(pre.push(x), f) == (named(pre, f) || parse_view(x@) == Some(f)),
{
    assert forall|f: FileNameView| #[trigger]
        named(pre.push(x), f) == (named(pre, f) || parse_view(x@) == Some(f)) by {
        let post = pre.push(x);
        if named(post, f) {
            let q = choose|q: int| 0 <= q < post.len() && #[trigger] parse_view(post[q]@) == Some(f);
            if q < pre.len() {
                assert(pre[q] == post[q]);
            }
        }
        if named(pre, f) {
            let q = choose|q: int| 0 <= q < pre.len() && #[trigger] parse_view(pre[q]@) == Some(f);
            assert(post[q] == pre[q]);
        }
        if parse_view(x@) == Some(f) {
            assert(post[pre.len() as int] == x);
        }
    }
}

/// Position of the complete group of a hash.
fn find_complete(groups: &Vec<CompleteFiles>, hash: &crate::hash::Hash) -> (r: Option<usize>)
    ensures
        r matches Some(j) ==> j < groups@.len() && groups@[j as int].hash.0@ == hash.0@,
        r is None ==> forall|j: int| 0 <= j < groups@.len() ==> groups@[j].hash.0@ != hash.0@,
{
    let mut j: usize = 0;
    while j < groups.len()
        invariant
            j <= groups@.len(),
            forall|k: int| 0 <= k < j ==> groups@[k].hash.0@ != hash.0@,
        decreases groups@.len() - j,
    {
        if groups[j].hash == *hash {
            return Some(j);
        }
        j = j + 1;
    }
    None
}

/// Whether two ids are equal.
fn same_id(a: &[u8; 16], b: &[u8; 16]) -> (r: bool)
    ensures
        r == (a@ == b@),
{
    let mut i: usize = 0;
    while i < 16
        invariant
            i <= 16,
            forall|k: int| 0 <= k < i ==> a@[k] == b@[k],
        decreases 16 - i,
    {
        if a[i] != b[i] {
            return false;
        }
        i = i + 1;
    }
    assert(a@ =~= b@);
    true
}

/// Position of the partial group of a hash and id.
fn find_partial(groups: &Vec<PartialFiles>, hash: &crate::hash::Hash, uuid: &[u8; 16]) -> (r: Option<
    usize,
>)
    ensures
        r matches Some(j) ==> j < groups@.len() && groups@[j as int].hash.0@ == hash.0@
            && groups@[j as int].uuid@ == uuid@,
        r is None ==> forall|j: int|
            0 <= j < groups@.len() ==> (groups@[j].hash.0@, groups@[j].uuid@) != (hash.0@, uuid@),
{
    let mut j: usize = 0;
    while j < groups.len()
        invariant
            j <= groups@.len(),
            forall|k: int|
                0 <= k < j ==> (groups@[k].hash.0@, groups@[k].uuid@) != (hash.0@, uuid@),
        decreases groups@.len() - j,
    {
        if groups[j].hash == *hash && same_id(&groups[j].uuid, uuid) {
            return Some(j);
        }
        j = j + 1;
    }
    None
}

/// Groups the names of the complete directory by hash. Names that are not
/// complete data, outboard or path lists are left out.
pub fn index_complete(names: &Vec<String>) -> (r: Vec<CompleteFiles>)
    ensures
        forall|a: int, b: int| 0 <= a < b < r@.len() ==> r@[a].hash.0@ != r@[b].hash.0@,
        forall|j: int| 0 <= j < r@.len() ==> complete_group_ok(names@, #[trigger] r@[j]),
        forall|i: int|
            0 <= i < names@.len() && #[trigger] complete_hash_of(parse_view(names@[i]@)) is Some
                ==> exists|j: int|
                0 <= j < r@.len() && r@[j].hash.0@ == complete_hash_of(
                    parse_view(names@[i]@),
                )->0,
{
    let mut groups: Vec<CompleteFiles> = Vec::new();
    let mut i: usize = 0;
    while i < names.len()
        invariant
            i <= names@.len(),
            forall|a: int, b: int|
                0 <= a < b < groups@.len() ==> groups@[a].hash.0@ != groups@[b].hash.0@,
            forall|j: int|
                0 <= j < groups@.len() ==> complete_group_ok(
                    names@.subrange(0, i as int),
                    #[trigger] groups@[j],
                ),
            forall|k: int|
                0 <= k < i && #[trigger] complete_hash_of(parse_view(names@[k]@)) is Some
                    ==> exists|j: int|
                    0 <= j < groups@.len() && groups@[j].hash.0@ == complete_hash_of(
                        parse_view(names@[k]@),
                    )->0,
        decreases names@.len() - i,
    {
        let parsed = FileName::from_str(names[i].as_str());
        proof {
            lemma_parse_view(names@[i as int]@, parsed);
        }
        let ghost pre = names@.subrange(0, i as int);
        let ghost post = names@.subrange(0, i + 1);
        let ghost fv = parse_view(names@[i as int]@);
        proof {
            assert(post =~= pre.push(names@[i as int]));
            lemma_named_push(pre, names@[i as int]);
        }
        let (hash, kind): (crate::hash::Hash, u8) = match parsed {
            Ok(FileName::Data(h)) => (h, 0),
            Ok(FileName::Outboard(h)) => (h, 1),
            Ok(FileName::Paths(h)) => (h, 2),
            _ => {
                proof {
                    assert(complete_hash_of(fv) is None);
                    assert forall|j: int| 0 <= j < groups@.len() implies complete_group_ok(
                        post,
                        #[trigger] groups@[j],
                    ) by {
                        assert(complete_group_ok(pre, groups@[j]));
                    }
                }
                i = i + 1;
                continue;
            },
        };
        let ghost old_groups = groups@;
        let ghost mut gj: int = 0;
        match find_complete(&groups, &hash) {
            Some(j) => {
                let mut g = groups[j];
                if kind == 0 {
                    g.data = true;
                } else if kind == 1 {
                    g.outboard = true;
                } else {
                    g.paths = true;
                }
                groups.set(j, g);
                proof {
                    gj = j as int;
                    assert forall|k: int| 0 <= k < groups@.len() implies complete_group_ok(
                        post,
                        #[trigger] groups@[k],
                    ) by {
                        assert(complete_group_ok(pre, old_groups[k]));
                        if k != j {
                            assert(old_groups[k].hash.0@ != hash.0@);
                        }
                    }
                }
            },
            None => {
                let g = CompleteFiles { hash, data: kind == 0, outboard: kind == 1, paths: kind == 2 };
                groups.push(g);
                proof {
                    gj = old_groups.len() as int;
                    assert forall|k: int| 0 <= k < groups@.len() implies complete_group_ok(
                        post,
                        #[trigger] groups@[k],
                    ) by {
                        if k < old_groups.len() {
                            assert(complete_group_ok(pre, old_groups[k]));
                            assert(old_groups[k].hash.0@ != hash.0@);
                        } else {
                            assert(!named(pre, FileNameView::Data(hash.0@))) by {
                                if named(pre, FileNameView::Data(hash.0@)) {
                                    let q = choose|q: int| 0 <= q < pre.len() && #[trigger] parse_view(pre[q]@) == Some(FileNameView::Data(hash.0@));
                                    assert(pre[q] == names@[q]);
                                    assert(complete_hash_of(parse_view(names@[q]@)) is Some);
                                }
                            }
                            assert(!named(pre, FileNameView::Outboard(hash.0@))) by {
                                if named(pre, FileNameView::Outboard(hash.0@)) {
                                    let q = choose|q: int| 0 <= q < pre.len() && #[trigger] parse_view(pre[q]@) == Some(FileNameView::Outboard(hash.0@));
                                    assert(pre[q] == names@[q]);
                                    assert(complete_hash_of(parse_view(names@[q]@)) is Some);
                                }
                            }
                            assert(!named(pre, FileNameView::Paths(hash.0@))) by {
                                if named(pre, FileNameView::Paths(hash.0@)) {
                                    let q = choose|q: int| 0 <= q < pre.len() && #[trigger] parse_view(pre[q]@) == Some(FileNameView::Paths(hash.0@));
                                    assert(pre[q] == names@[q]);
                                    assert(complete_hash_of(parse_view(names@[q]@)) is Some);
                                }
                            }
                        }
                    }
                }
            },
        }
        proof {
            assert forall|k: int|
                0 <= k < i + 1 && #[trigger] complete_hash_of(parse_view(names@[k]@)) is Some
                    implies exists|j: int|
                    0 <= j < groups@.len() && groups@[j].hash.0@ == complete_hash_of(
                        parse_view(names@[k]@),
                    )->0 by {
                if k < i {
                    let j0 = choose|j: int|
                        0 <= j < old_groups.len() && old_groups[j].hash.0@ == complete_hash_of(
                            parse_view(names@[k]@),
                        )->0;
                    assert(groups@[j0].hash.0@ == old_groups[j0].hash.0@);
                } else {
                    assert(groups@[gj].hash.0@ == hash.0@);
                }
            }
        }
        i = i + 1;
    }
    proof {
        assert(names@.subrange(0, names@.len() as int) =~= names@);
    }
    groups
}

/// Groups the names of the partial directory by hash and id. Names that are
/// not partial data or outboard files are left out.
pub fn index_partial(names: &Vec<String>) -> (r: Vec<PartialFiles>)
    ensures
        forall|a: int, b: int|
            0 <= a < b < r@.len() ==> (r@[a].hash.0@, r@[a].uuid@) != (r@[b].hash.0@, r@[b].uuid@),
        forall|j: int| 0 <= j < r@.len() ==> partial_group_ok(names@, #[trigger] r@[j]),
        forall|i: int|
            0 <= i < names@.len() && #[trigger] partial_key_of(parse_view(names@[i]@)) is Some
                ==> exists|j: int|
                0 <= j < r@.len() && (r@[j].hash.0@, r@[j].uuid@) == partial_key_of(
                    parse_view(names@[i]@),
                )->0,
{
    let mut groups: Vec<PartialFiles> = Vec::new();
    let mut i: usize = 0;
    while i < names.len()
        invariant
            i <= names@.len(),
            forall|a: int, b: int|
                0 <= a < b < groups@.len() ==> (groups@[a].hash.0@, groups@[a].uuid@) != (
                    groups@[b].hash.0@,
                    groups@[b].uuid@,
                ),
            forall|j: int|
                0 <= j < groups@.len() ==> partial_group_ok(
                    names@.subrange(0, i as int),
                    #[trigger] groups@[j],
                ),
            forall|k: int|
                0 <= k < i && #[trigger] partial_key_of(parse_view(names@[k]@)) is Some
                    ==> exists|j: int|
                    0 <= j < groups@.len() && (groups@[j].hash.0@, groups@[j].uuid@) == partial_key_of(
                        parse_view(names@[k]@),
                    )->0,
        decreases names@.len() - i,
    {
        let parsed = FileName::from_str(names[i].as_str());
        proof {
            lemma_parse_view(names@[i as int]@, parsed);
        }
        let ghost pre = names@.subrange(0, i as int);
        let ghost post = names@.subrange(0, i + 1);
        let ghost fv = parse_view(names@[i as int]@);
        proof {
            assert(post =~= pre.push(names@[i as int]));
            lemma_named_push(pre, names@[i as int]);
        }
        let (hash, uuid, kind): (crate::hash::Hash, [u8; 16], u8) = match parsed {
            Ok(FileName::PartialData(h, u)) => (h, u, 0),
            Ok(FileName::PartialOutboard(h, u)) => (h, u, 1),
            _ => {
                proof {
                    assert(partial_key_of(fv) is None);
                    assert forall|j: int| 0 <= j < groups@.len() implies partial_group_ok(
                        post,
                        #[trigger] groups@[j],
                    ) by {
                        assert(partial_group_ok(pre, groups@[j]));
                    }
                }
                i = i + 1;
                continue;
            },
        };
        let ghost old_groups = groups@;
        let ghost mut gj: int = 0;
        match find_partial(&groups, &hash, &uuid) {
            Some(j) => {
                let mut g = groups[j];
                if kind == 0 {
                    g.data = true;
                } else {
                    g.outboard = true;
                }
                groups.set(j, g);
                proof {
                    gj = j as int;
                    assert forall|k: int| 0 <= k < groups@.len() implies partial_group_ok(
                        post,
                        #[trigger] groups@[k],
                    ) by {
                        assert(partial_group_ok(pre, old_groups[k]));
                        if k != j {
                            assert((old_groups[k].hash.0@, old_groups[k].uuid@) != (hash.0@, uuid@));
                        }
                    }
                }
            },
            None => {
                let g = PartialFiles { hash, uuid, data: kind == 0, outboard: kind == 1 };
                groups.push(g);
                proof {
                    gj = old_groups.len() as int;
                    assert forall|k: int| 0 <= k < groups@.len() implies partial_group_ok(
                        post,
                        #[trigger] groups@[k],
                    ) by {
                        if k < old_groups.len() {
                            assert(partial_group_ok(pre, old_groups[k]));
                            assert((old_groups[k].hash.0@, old_groups[k].uuid@) != (hash.0@, uuid@));
                        } else {
                            assert(!named(pre, FileNameView::PartialData(hash.0@, uuid@))) by {
                                if named(pre, FileNameView::PartialData(hash.0@, uuid@)) {
                                    let q = choose|q: int| 0 <= q < pre.len() && #[trigger] parse_view(pre[q]@) == Some(FileNameView::PartialData(hash.0@, uuid@));
                                    assert(pre[q] == names@[q]);
                                    assert(partial_key_of(parse_view(names@[q]@)) is Some);
                                }
                            }
                            assert(!named(pre, FileNameView::PartialOutboard(hash.0@, uuid@))) by {
                                if named(pre, FileNameView::PartialOutboard(hash.0@, uuid@)) {
                                    let q = choose|q: int| 0 <= q < pre.len() && #[trigger] parse_view(pre[q]@) == Some(FileNameView::PartialOutboard(hash.0@, uuid@));
                                    assert(pre[q] == names@[q]);
                                    assert(partial_key_of(parse_view(names@[q]@)) is Some);
                                }
                            }
                        }
                    }
                }
            },
        }
        proof {
            assert forall|k: int|
                0 <= k < i + 1 && #[trigger] partial_key_of(parse_view(names@[k]@)) is Some
                    implies exists|j: int|
                    0 <= j < groups@.len() && (groups@[j].hash.0@, groups@[j].uuid@) == partial_key_of(
                        parse_view(names@[k]@),
                    )->0 by {
                if k < i {
                    let j0 = choose|j: int|
                        0 <= j < old_groups.len() && (old_groups[j].hash.0@, old_groups[j].uuid@) == partial_key_of(
                            parse_view(names@[k]@),
                        )->0;
                    assert(groups@[j0].hash.0@ == old_groups[j0].hash.0@);
                } else {
                    assert((groups@[gj].hash.0@, groups@[gj].uuid@) == (hash.0@, uuid@));
                }
            }
        }
        i = i + 1;
    }
    proof {
        assert(names@.subrange(0, names@.len() as int) =~= names@);
    }
    groups
}

/// What was read from disk for a complete group.
#[derive(Debug)]
pub struct CompleteStat {
    /// The size of the owned data file when there is one, else of the first
    /// external path; none when that file could not be read or there is
    /// neither.
    pub size: Option<u64>,
    /// The external paths of the legacy list, in order.
    pub external: Vec<String>,
}

/// What was read from disk for a partial group.
#[derive(Debug, Clone, Copy)]
pub struct PartialStat {
    /// The size of the partial data file, if it could be read.
    pub current_size: Option<u64>,
    /// The first eight bytes of the partial outboard file, if they could be
    /// read: the declared size, least significant byte first.
    pub head: Option<[u8; 8]>,
}

/// The index that the files stand for, and the files that are left over.
#[derive(Debug)]
pub struct Reconciled {
    pub complete: Vec<(crate::hash::Hash, CompleteEntry)>,
    pub partial: Vec<(crate::hash::Hash, PartialEntryData)>,
    pub remove: Vec<String>,
}

/// A complete group becomes a row when it has an owned data file or an
/// external path, its size is known, and a blob of that size that needs an
/// outboard has one.
pub open spec fn complete_kept(g: CompleteFiles, st: &CompleteStat) -> bool {
    &&& g.data || st.external@.len() > 0
    &&& st.size matches Some(size) && (size <= BLOCK_SIZE || g.outboard)
}

/// Some complete group of the hash becomes a row.
pub open spec fn completed(groups: Seq<CompleteFiles>, stats: Seq<CompleteStat>, h: Seq<u8>) -> bool {
    exists|j: int|
        0 <= j < groups.len() && groups[j].hash.0@ == h && #[trigger] complete_kept(
            groups[j],
            &stats[j],
        )
}

/// A partial group is a candidate when both its files are there and were
/// read, and its hash is not complete.
pub open spec fn candidate(
    cg: Seq<CompleteFiles>,
    cs: Seq<CompleteStat>,
    g: PartialFiles,
    st: PartialStat,
) -> bool {
    g.data && g.outboard && st.current_size is Some && st.head is Some && !completed(cg, cs, g.hash.0@)
}

/// The partial group `i` is the one kept for its hash: a candidate with
/// some data, with the most data among the candidates of its hash, and the
/// first such.
pub open spec fn chosen(
    cg: Seq<CompleteFiles>,
    cs: Seq<CompleteStat>,
    pg: Seq<PartialFiles>,
    ps: Seq<PartialStat>,
    i: int,
) -> bool {
    &&& candidate(cg, cs, pg[i], ps[i])
    &&& ps[i].current_size->0 > 0
    &&& forall|j: int|
        0 <= j < pg.len() && pg[j].hash.0@ == pg[i].hash.0@ && #[trigger] candidate(
            cg,
            cs,
            pg[j],
            ps[j],
        ) ==> ps[j].current_size->0 <= ps[i].current_size->0
    &&& forall|j: int|
        0 <= j < i && pg[j].hash.0@ == pg[i].hash.0@ && #[trigger] candidate(cg, cs, pg[j], ps[j])
            ==> ps[j].current_size->0 < ps[i].current_size->0
}

/// The complete rows of the first `n` groups: hash, size, owned, paths.
pub open spec fn complete_rows(groups: Seq<CompleteFiles>, stats: Seq<CompleteStat>, n: int) -> Seq<
    (Seq<u8>, u64, bool, Seq<Seq<char>>),
>
    decreases n,
{
    if n <= 0 {
        Seq::empty()
    } else {
        let prev = complete_rows(groups, stats, n - 1);
        if complete_kept(groups[n - 1], &stats[n - 1]) {
            prev.push(
                (
                    groups[n - 1].hash.0@,
                    stats[n - 1].size->0,
                    groups[n - 1].data,
                    merge_paths(Seq::empty(), texts(stats[n - 1].external@)),
                ),
            )
        } else {
            prev
        }
    }
}

/// The partial rows of the first `n` partial groups: hash, declared size, id.
pub open spec fn partial_rows(
    cg: Seq<CompleteFiles>,
    cs: Seq<CompleteStat>,
    pg: Seq<PartialFiles>,
    ps: Seq<PartialStat>,
    n: int,
) -> Seq<(Seq<u8>, nat, Seq<u8>)>
    decreases n,
{
    if n <= 0 {
        Seq::empty()
    } else {
        let prev = partial_rows(cg, cs, pg, ps, n - 1);
        if chosen(cg, cs, pg, ps, n - 1) {
            prev.push((pg[n - 1].hash.0@, le_value(ps[n - 1].head->0@), pg[n - 1].uuid@))
        } else {
            prev
        }
    }
}

/// The files of the first `n` partial groups that are not kept.
pub open spec fn removed_files(
    options: &Options,
    cg: Seq<CompleteFiles>,
    cs: Seq<CompleteStat>,
    pg: Seq<PartialFiles>,
    ps: Seq<PartialStat>,
    n: int,
) -> Seq<Seq<char>>
    decreases n,
{
    if n <= 0 {
        Seq::empty()
    } else {
        let prev = removed_files(options, cg, cs, pg, ps, n - 1);
        let g = pg[n - 1];
        if chosen(cg, cs, pg, ps, n - 1) {
            prev
        } else {
            let d = if g.data {
                seq![
                    join(
                        options.partial_path@,
                        name_text(FileNameView::PartialData(g.hash.0@, g.uuid@)),
                    ),
                ]
            } else {
                Seq::empty()
            };
            let o = if g.outboard {
                seq![
                    join(
                        options.partial_path@,
                        name_text(FileNameView::PartialOutboard(g.hash.0@, g.uuid@)),
                    ),
                ]
            } else {
                Seq::empty()
            };
            prev + d + o
        }
    }
}

/// The paths of a list, each once, in order of first appearance.
fn dedup_paths(v: &Vec<String>) -> (r: Vec<String>)
    ensures
        texts(r@) == merge_paths(Seq::empty(), texts(v@)),
{
    let mut out: Vec<String> = Vec::new();
    let mut i: usize = 0;
    let ghost all = texts(v@);
    while i < v.len()
        invariant
            i <= v@.len(),
            all == texts(v@),
            texts(out@) == merge_paths(Seq::empty(), all.subrange(0, i as int)),
        decreases v@.len() - i,
    {
        let ghost before = texts(out@);
        proof {
            assert(all.subrange(0, i + 1).drop_last() =~= all.subrange(0, i as int));
        }
        if !crate::entry::contains_text(&out, &v[i]) {
            out.push(v[i].clone());
            assert(texts(out@) =~= before.push(v@[i as int]@));
        }
        i = i + 1;
    }
    assert(all.subrange(0, v@.len() as int) =~= all);
    out
}

/// Whether some complete group of the hash becomes a row.
fn is_completed(cg: &Vec<CompleteFiles>, cs: &Vec<CompleteStat>, h: &crate::hash::Hash) -> (r: bool)
    requires
        cg@.len() == cs@.len(),
    ensures
        r == completed(cg@, cs@, h.0@),
{
    let mut j: usize = 0;
    while j < cg.len()
        invariant
            j <= cg@.len(),
            cg@.len() == cs@.len(),
            forall|k: int|
                0 <= k < j && cg@[k].hash.0@ == h.0@ ==> !#[trigger] complete_kept(cg@[k], &cs@[k]),
        decreases cg@.len() - j,
    {
        if cg[j].hash == *h {
            let kept = match cs[j].size {
                Some(size) => (cg[j].data || cs[j].external.len() > 0) && (size <= BLOCK_SIZE
                    || cg[j].outboard),
                None => false,
            };
            if kept {
                assert(complete_kept(cg@[j as int], &cs@[j as int]));
                return true;
            }
        }
        j = j + 1;
    }
    false
}

/// Whether a partial group is a candidate.
fn is_candidate(cg: &Vec<CompleteFiles>, cs: &Vec<CompleteStat>, g: &PartialFiles, st: &PartialStat) -> (r:
    bool)
    requires
        cg@.len() == cs@.len(),
    ensures
        r == candidate(cg@, cs@, *g, *st),
{
    g.data && g.outboard && st.current_size.is_some() && st.head.is_some() && !is_completed(
        cg,
        cs,
        &g.hash,
    )
}

/// Whether the partial group `i` is the one kept for its hash.
fn is_chosen(
    cg: &Vec<CompleteFiles>,
    cs: &Vec<CompleteStat>,
    pg: &Vec<PartialFiles>,
    ps: &Vec<PartialStat>,
    i: usize,
) -> (r: bool)
    requires
        cg@.len() == cs@.len(),
        pg@.len() == ps@.len(),
        i < pg@.len(),
    ensures
        r == chosen(cg@, cs@, pg@, ps@, i as int),
{
    if !is_candidate(cg, cs, &pg[i], &ps[i]) {
        return false;
    }
    let cur = match ps[i].current_size {
        Some(c) => c,
        None => return false,
    };
    if cur == 0 {
        return false;
    }
    let mut j: usize = 0;
    while j < pg.len()
        invariant
            j <= pg@.len(),
            pg@.len() == ps@.len(),
            cg@.len() == cs@.len(),
            i < pg@.len(),
            ps@[i as int].current_size == Some(cur),
            forall|k: int|
                0 <= k < j && pg@[k].hash.0@ == pg@[i as int].hash.0@ && #[trigger] candidate(
                    cg@,
                    cs@,
                    pg@[k],
                    ps@[k],
                ) ==> ps@[k].current_size->0 <= cur,
            forall|k: int|
                0 <= k < j && k < i && pg@[k].hash.0@ == pg@[i as int].hash.0@ && #[trigger] candidate(
                    cg@,
                    cs@,
                    pg@[k],
                    ps@[k],
                ) ==> ps@[k].current_size->0 < cur,
        decreases pg@.len() - j,
    {
        if pg[j].hash == pg[i].hash && is_candidate(cg, cs, &pg[j], &ps[j]) {
            let other = match ps[j].current_size {
                Some(c) => c,
                None => 0,
            };
            if other > cur || (j < i && other == cur) {
                return false;
            }
        }
        j = j + 1;
    }
    true
}

/// What the index should hold after a scan of the store directories, and
/// the partial files to delete. `complete_stats` and `partial_stats` hold
/// what was read from disk for the groups of the same position in `index`.
pub fn reconcile(
    options: &Options,
    index: &FileIndex,
    complete_stats: &Vec<CompleteStat>,
    partial_stats: &Vec<PartialStat>,
) -> (r: Reconciled)
    requires
        complete_stats@.len() == index.complete@.len(),
        partial_stats@.len() == index.partial@.len(),
    ensures
        r.complete@.len() == complete_rows(index.complete@, complete_stats@, index.complete@.len() as int).len(),
        forall|k: int|
            0 <= k < r.complete@.len() ==> {
                let row = #[trigger] complete_rows(
                    index.complete@,
                    complete_stats@,
                    index.complete@.len() as int,
                )[k];
                &&& r.complete@[k].0.0@ == row.0
                &&& r.complete@[k].1.size == row.1
                &&& r.complete@[k].1.owned_data == row.2
                &&& r.complete@[k].1.paths() == row.3
                &&& r.complete@[k].1.wf()
                &&& r.complete@[k].1.owned_data || r.complete@[k].1.external@.len() > 0
            },
        r.partial@.len() == partial_rows(
            index.complete@,
            complete_stats@,
            index.partial@,
            partial_stats@,
            index.partial@.len() as int,
        ).len(),
        forall|k: int|
            0 <= k < r.partial@.len() ==> {
                let row = #[trigger] partial_rows(
                    index.complete@,
                    complete_stats@,
                    index.partial@,
                    partial_stats@,
                    index.partial@.len() as int,
                )[k];
                &&& r.partial@[k].0.0@ == row.0
                &&& r.partial@[k].1.size == row.1
                &&& r.partial@[k].1.uuid@ == row.2
            },
        texts(r.remove@) == removed_files(
            options,
            index.complete@,
            complete_stats@,
            index.partial@,
            partial_stats@,
            index.partial@.len() as int,
        ),
{
    let ghost cg = index.complete@;
    let ghost cs = complete_stats@;
    let ghost pg = index.partial@;
    let ghost ps = partial_stats@;
    let mut complete: Vec<(crate::hash::Hash, CompleteEntry)> = Vec::new();
    let mut i: usize = 0;
    while i < index.complete.len()
        invariant
            i <= cg.len(),
            cg == index.complete@,
            cs == complete_stats@,
            cs.len() == cg.len(),
            complete@.len() == complete_rows(cg, cs, i as int).len(),
            forall|k: int|
                0 <= k < complete@.len() ==> {
                    let row = #[trigger] complete_rows(cg, cs, i as int)[k];
                    &&& complete@[k].0.0@ == row.0
                    &&& complete@[k].1.size == row.1
                    &&& complete@[k].1.owned_data == row.2
                    &&& complete@[k].1.paths() == row.3
                    &&& complete@[k].1.wf()
                    &&& complete@[k].1.owned_data || complete@[k].1.external@.len() > 0
                },
        decreases cg.len() - i,
    {
        let g = index.complete[i];
        let st = &complete_stats[i];
        let ghost prev = complete_rows(cg, cs, i as int);
        if let Some(size) = st.size {
            if (g.data || st.external.len() > 0) && (size <= BLOCK_SIZE || g.outboard) {
                let external = dedup_paths(&st.external);
                proof {
                    crate::entry::lemma_merge_paths(Seq::empty(), texts(st.external@));
                    if !g.data {
                        let t = texts(st.external@);
                        assert(t.to_set().contains(t[0]));
                        assert(Seq::<Seq<char>>::empty().to_set().union(t.to_set()).contains(t[0]));
                        if texts(external@).len() == 0 {
                            assert(texts(external@).to_set() =~= Set::empty());
                        }
                    }
                }
                complete.push((g.hash, CompleteEntry { size, owned_data: g.data, external }));
            }
        }
        proof {
            assert forall|k: int| 0 <= k < complete@.len() implies {
                let row = #[trigger] complete_rows(cg, cs, i + 1)[k];
                &&& complete@[k].0.0@ == row.0
                &&& complete@[k].1.size == row.1
                &&& complete@[k].1.owned_data == row.2
                &&& complete@[k].1.paths() == row.3
                &&& complete@[k].1.wf()
                &&& complete@[k].1.owned_data || complete@[k].1.external@.len() > 0
            } by {
                if k < prev.len() {
                    assert(complete_rows(cg, cs, i + 1)[k] == prev[k]);
                }
            }
        }
        i = i + 1;
    }
    let mut partial: Vec<(crate::hash::Hash, PartialEntryData)> = Vec::new();
    let mut remove: Vec<String> = Vec::new();
    let mut i: usize = 0;
    while i < index.partial.len()
        invariant
            i <= pg.len(),
            cg == index.complete@,
            cs == complete_stats@,
            pg == index.partial@,
            ps == partial_stats@,
            cs.len() == cg.len(),
            ps.len() == pg.len(),
            partial@.len() == partial_rows(cg, cs, pg, ps, i as int).len(),
            forall|k: int|
                0 <= k < partial@.len() ==> {
                    let row = #[trigger] partial_rows(cg, cs, pg, ps, i as int)[k];
                    &&& partial@[k].0.0@ == row.0
                    &&& partial@[k].1.size == row.1
                    &&& partial@[k].1.uuid@ == row.2
                },
            texts(remove@) == removed_files(options, cg, cs, pg, ps, i as int),
        decreases pg.len() - i,
    {
        let g = index.partial[i];
        let ghost prev = partial_rows(cg, cs, pg, ps, i as int);
        let ghost prev_remove = texts(remove@);
        if is_chosen(&index.complete, complete_stats, &index.partial, partial_stats, i) {
            let head = match partial_stats[i].head {
                Some(h) => h,
                None => {
                    proof {
                        assert(false);
                    }
                    [0u8; 8]
                },
            };
            let size = u64_from_le(&head);
            partial.push((g.hash, PartialEntryData::new(size, g.uuid)));
        } else {
            if g.data {
                remove.push(options.partial_data_path(g.hash, &g.uuid));
            }
            if g.outboard {
                remove.push(options.partial_outboard_path(g.hash, &g.uuid));
            }
        }
        proof {
            assert forall|k: int| 0 <= k < partial@.len() implies {
                let row = #[trigger] partial_rows(cg, cs, pg, ps, i + 1)[k];
                &&& partial@[k].0.0@ == row.0
                &&& partial@[k].1.size == row.1
                &&& partial@[k].1.uuid@ == row.2
            } by {
                if k < prev.len() {
                    assert(partial_rows(cg, cs, pg, ps, i + 1)[k] == prev[k]);
                }
            }
            assert(texts(remove@) =~= removed_files(options, cg, cs, pg, ps, i + 1));
        }
        i = i + 1;
    }
    Reconciled { complete, partial, remove }
}

/// At most one partial group of a hash is kept.
pub proof fn lemma_one_kept_per_hash(
    cg: Seq<CompleteFiles>,
    cs: Seq<CompleteStat>,
    pg: Seq<PartialFiles>,
    ps: Seq<PartialStat>,
    a: int,
    b: int,
)
    requires
        0 <= a < b < pg.len(),
        pg.len() == ps.len(),
        pg[a].hash.0@ == pg[b].hash.0@,
    ensures
        !(chosen(cg, cs, pg, ps, a) && chosen(cg, cs, pg, ps, b)),
{
    if chosen(cg, cs, pg, ps, a) && chosen(cg, cs, pg, ps, b) {
        assert(candidate(cg, cs, pg[a], ps[a]));
        assert(candidate(cg, cs, pg[b], ps[b]));
        assert(ps[a].current_size->0 < ps[b].current_size->0);
        assert(ps[b].current_size->0 <= ps[a].current_size->0);
    }
}

} // verus!
