use iroh_bytes::entry::{
    needs_outboard, size_outboard, CompleteEntry, ErrorKind, FileHandle, ImportData, MemOrFile,
    MemOrFileHandle, PartialEntry, PartialEntryData, StoreError,
};
use iroh_bytes::hash::{BlobFormat, HashAndFormat};
use iroh_bytes::reconcile::{
    index_complete, index_partial, reconcile, CompleteStat, FileIndex, PartialStat,
};
use iroh_bytes::state::State;
use iroh_bytes::store::{
    check_version, entry_status, get_or_create_partial, merge_complete, needs_migration,
    plan_export, plan_import, plan_promotion, record_export, resolve_get, resolve_possibly_partial,
    version_bytes, EntryStatus, ExportMode, ExportPlan, OutboardAction, OutboardPlacement,
    Options, PossiblyPartialEntry, PromotionPlan,
};

fn h(b: u8) -> iroh_bytes::hash::Hash {
    iroh_bytes::hash::Hash::from([b; 32])
}

fn opts() -> Options {
    Options::new("/store")
}

#[test]
fn options_layout() {
    let o = opts();
    assert_eq!(o.complete_path, "/store/complete");
    assert_eq!(o.partial_path, "/store/partial");
    assert_eq!(o.meta_path, "/store/meta");
    assert_eq!(o.db_path(), "/store/meta/db.v1");
    assert_eq!(o.move_threshold, 131072);
    assert_eq!(o.outboard_inline_threshold, 4104);
    assert_eq!(
        o.owned_data_path(&h(0xab)),
        format!("/store/complete/{}.data", "ab".repeat(32))
    );
    assert_eq!(
        o.partial_outboard_path(h(1), &[2; 16]),
        format!("/store/partial/{}-{}.obao4", "01".repeat(32), "02".repeat(16))
    );
    assert_eq!(o.temp_path(&[3; 16]), format!("/store/partial/{}.temp", "03".repeat(16)));
}

#[test]
fn union_is_commutative_for_equal_sizes() {
    let mut a = CompleteEntry::new_external(10, "/x".to_string());
    let mut b = CompleteEntry::new_default(10);
    b.union_with(CompleteEntry::new_external(10, "/y".to_string())).unwrap();
    let a2 = CompleteEntry::new_external(10, "/x".to_string());
    let mut b2 = CompleteEntry::new_default(10);
    b2.union_with(CompleteEntry::new_external(10, "/y".to_string())).unwrap();
    a.union_with(b2).unwrap();
    b.union_with(a2).unwrap();
    assert_eq!(a.size, b.size);
    assert_eq!(a.owned_data, b.owned_data);
    assert!(a.owned_data);
    let mut pa = a.external.clone();
    let mut pb = b.external.clone();
    pa.sort();
    pb.sort();
    assert_eq!(pa, pb);
    assert_eq!(pa, vec!["/x".to_string(), "/y".to_string()]);
}

#[test]
fn union_size_mismatch_fails() {
    let mut a = CompleteEntry::new_default(10);
    let r = a.union_with(CompleteEntry::new_default(11));
    assert_eq!(r, Err(StoreError::SizeMismatch));
    assert_eq!(a.size, 10);
    assert_eq!(StoreError::SizeMismatch.kind(), ErrorKind::InvalidInput);
    // an entry without a size takes the new one
    let mut empty = CompleteEntry::default();
    empty.union_with(CompleteEntry::new_default(11)).unwrap();
    assert_eq!(empty.size, 11);
    assert!(empty.owned_data);
}

#[test]
fn union_keeps_paths_once() {
    let mut a = CompleteEntry::new_external(5, "/p".to_string());
    a.union_with(CompleteEntry::new_external(5, "/p".to_string())).unwrap();
    assert_eq!(a.external, vec!["/p".to_string()]);
    assert!(a.is_valid());
    assert_eq!(a.external_path(), Some(&"/p".to_string()));
    assert!(!CompleteEntry::default().is_valid());
}

#[test]
fn error_kinds() {
    assert_eq!(StoreError::NotAbsolute.kind(), ErrorKind::InvalidInput);
    assert_eq!(StoreError::HashNotFound.kind(), ErrorKind::NotFound);
    assert_eq!(StoreError::MalformedVersion.kind(), ErrorKind::InvalidData);
    assert_eq!(iroh_bytes::entry::immutable_error().kind(), ErrorKind::Unsupported);
}

#[test]
fn outboard_prefix_is_little_endian_size() {
    assert!(!needs_outboard(16384));
    assert!(needs_outboard(16385));
    let o = size_outboard(32768);
    assert_eq!(o, 32768u64.to_le_bytes().to_vec());
    assert_eq!(iroh_bytes::encoding::u64_from_le(&o), 32768);
}

#[test]
fn liveness_of_temp_tags() {
    let mut s = State::new();
    let tag = HashAndFormat { hash: h(1), format: BlobFormat::raw() };
    s.on_clone(tag);
    let hashes = vec![h(1), h(2)];
    assert_eq!(s.deletable(&hashes), vec![h(2)]);
    s.clear_live();
    assert!(s.is_live(&h(1)));
    s.on_drop(tag);
    assert!(!s.is_live(&h(1)));
    assert_eq!(s.deletable(&hashes), vec![h(1), h(2)]);
    s.add_live(&vec![h(2)]);
    assert_eq!(s.deletable(&hashes), vec![h(1)]);
    s.clear_live();
    assert_eq!(s.deletable(&hashes), vec![h(1), h(2)]);
}

#[test]
fn temp_tags_are_counted() {
    let mut s = State::new();
    let tag = HashAndFormat { hash: h(3), format: BlobFormat::raw() };
    s.on_clone(tag);
    s.on_clone(tag);
    s.on_drop(tag);
    assert!(s.is_live(&h(3)));
    s.on_drop(tag);
    assert!(!s.is_live(&h(3)));
}

#[test]
fn transient_partials() {
    let mut s = State::new();
    assert_eq!(s.get_or_insert_partial(h(1), 100), 100);
    assert_eq!(s.get_or_insert_partial(h(1), 200), 100);
    assert_eq!(s.partial_size(&h(1)), Some(100));
    assert_eq!(s.partial_hashes(), vec![h(1)]);
    s.remove_partial(&h(1));
    assert_eq!(s.partial_size(&h(1)), None);
}

#[test]
fn partial_promotion_plans() {
    let o = opts();
    let mut s = State::new();
    // small blob: a transient entry in memory
    let (small, row) = get_or_create_partial(&mut s, &o, h(1), 100, None, [7; 16]);
    assert!(row.is_none());
    assert!(s.is_live(&h(1)));
    assert!(matches!(small.data, MemOrFileHandle::Mem));
    assert!(matches!(plan_promotion(&o, &small), PromotionPlan::Memory));
    // large blob: files named by a new id, small outboard goes inline
    let (large, row) = get_or_create_partial(&mut s, &o, h(2), 32768, None, [7; 16]);
    assert_eq!(row.map(|p| (p.size, p.uuid)), Some((32768, [7; 16])));
    match plan_promotion(&o, &large) {
        PromotionPlan::File { data_from, data_to, outboard } => {
            assert_eq!(data_from, o.partial_data_path(h(2), &[7; 16]));
            assert_eq!(data_to, o.owned_data_path(&h(2)));
            match outboard {
                OutboardAction::Inline(p) => assert_eq!(p, o.partial_outboard_path(h(2), &[7; 16])),
                other => panic!("unexpected {:?}", other),
            }
        }
        other => panic!("unexpected {:?}", other),
    }
    // a stored row is reused, and its files are both named whatever size it holds
    let small_row = PartialEntryData::new(10, [6; 16]);
    let (reused, row) = get_or_create_partial(&mut s, &o, h(4), 32768, Some(small_row), [7; 16]);
    assert!(row.is_none());
    assert_eq!(reused.size, 10);
    match &reused.outboard {
        Some(FileHandle(p)) => assert_eq!(p, &o.partial_outboard_path(h(4), &[6; 16])),
        None => panic!("the outboard file must be named"),
    }
    let existing = PartialEntryData::new(10 * 1024 * 1024, [8; 16]);
    let (huge, row) = get_or_create_partial(&mut s, &o, h(3), 10 * 1024 * 1024, Some(existing), [7; 16]);
    assert!(row.is_none());
    match plan_promotion(&o, &huge) {
        PromotionPlan::File { outboard: OutboardAction::Rename(from, to), .. } => {
            assert_eq!(from, o.partial_outboard_path(h(3), &[8; 16]));
            assert_eq!(to, o.owned_outboard_path(&h(3)));
        }
        other => panic!("unexpected {:?}", other),
    }
}

#[test]
fn import_plans() {
    let o = opts();
    let temp = o.temp_path(&[1; 16]);
    let plan = plan_import(&o, h(1), 5, None, ImportData::TempFile(temp.clone()), [2; 16]);
    assert!(plan.inline_data);
    assert!(matches!(plan.outboard, OutboardPlacement::Absent));
    assert_eq!(plan.data_move, Some((temp, o.owned_data_path(&h(1)))));
    assert!(plan.entry.owned_data);

    let plan = plan_import(&o, h(2), 200 * 1024, Some(840), ImportData::External("/ext".to_string()), [2; 16]);
    assert!(!plan.inline_data);
    assert!(matches!(plan.outboard, OutboardPlacement::Inline));
    assert_eq!(plan.data_move, None);
    assert_eq!(plan.entry.external, vec!["/ext".to_string()]);
    assert!(!plan.entry.owned_data);

    let plan = plan_import(&o, h(3), 10 << 20, Some(40904), ImportData::External("/ext".to_string()), [2; 16]);
    assert_eq!(
        plan.outboard_move,
        Some((o.partial_outboard_path(h(3), &[2; 16]), o.owned_outboard_path(&h(3))))
    );
}

#[test]
fn merge_into_stored_rows() {
    let merged = merge_complete(None, CompleteEntry::new_default(9)).unwrap();
    assert_eq!(merged.size, 9);
    let merged = merge_complete(Some(merged), CompleteEntry::new_external(9, "/e".to_string())).unwrap();
    assert!(merged.owned_data);
    assert_eq!(merged.external, vec!["/e".to_string()]);
    assert_eq!(
        merge_complete(Some(merged), CompleteEntry::new_default(8)).err(),
        Some(StoreError::SizeMismatch)
    );
}

#[test]
fn export_by_reference() {
    let o = opts();
    let hash = h(4);
    let mut entry = CompleteEntry::new_default(200 * 1024);
    let plan = plan_export(&o, hash, "/out/file", ExportMode::TryReference, false, Some(&entry)).unwrap();
    match plan {
        ExportPlan::Move { source } => assert_eq!(source, o.owned_data_path(&hash)),
        other => panic!("unexpected {:?}", other),
    }
    record_export(&mut entry, "/out/file".to_string(), true);
    assert!(!entry.owned_data);
    assert_eq!(entry.external, vec!["/out/file".to_string()]);
    // the entry is now read from the target
    let e = resolve_get(&o, hash, None, Some((&entry, None, None)), None).unwrap().unwrap();
    match e.entry.data {
        MemOrFile::File((p, size)) => {
            assert_eq!(p, "/out/file");
            assert_eq!(size, 200 * 1024);
        }
        other => panic!("unexpected {:?}", other),
    }
}

#[test]
fn export_copies_and_errors() {
    let o = opts();
    let entry = CompleteEntry::new_default(1000);
    match plan_export(&o, h(5), "/t", ExportMode::TryReference, false, Some(&entry)).unwrap() {
        ExportPlan::Copy { source, record } => {
            assert_eq!(source, o.owned_data_path(&h(5)));
            assert!(record);
        }
        other => panic!("unexpected {:?}", other),
    }
    match plan_export(&o, h(5), "/t", ExportMode::Copy, false, Some(&entry)).unwrap() {
        ExportPlan::Copy { record, .. } => assert!(!record),
        other => panic!("unexpected {:?}", other),
    }
    assert!(matches!(plan_export(&o, h(5), "/t", ExportMode::Copy, true, None), Ok(ExportPlan::WriteInline)));
    assert_eq!(plan_export(&o, h(5), "t", ExportMode::Copy, false, Some(&entry)).err(), Some(StoreError::NotAbsolute));
    assert_eq!(plan_export(&o, h(5), "/", ExportMode::Copy, false, Some(&entry)).err(), Some(StoreError::NoParent));
    assert_eq!(plan_export(&o, h(5), "/t", ExportMode::Copy, false, None).err(), Some(StoreError::HashNotFound));
    let orphan = CompleteEntry { size: 3, owned_data: false, external: vec![] };
    assert_eq!(plan_export(&o, h(5), "/t", ExportMode::Copy, false, Some(&orphan)).err(), Some(StoreError::NoValidPath));
}

#[test]
fn lookups() {
    let o = opts();
    assert_eq!(entry_status(true, true, false), EntryStatus::Partial);
    assert_eq!(entry_status(false, true, true), EntryStatus::Complete);
    assert_eq!(entry_status(false, false, true), EntryStatus::Partial);
    assert_eq!(entry_status(false, false, false), EntryStatus::NotFound);

    let t = resolve_get(&o, h(1), Some((3, vec![1, 2, 3])), None, None).unwrap().unwrap();
    assert!(!t.is_complete());
    assert_eq!(t.size(), 3);
    match t.entry.outboard {
        MemOrFile::Mem(b) => assert_eq!(b, 3u64.to_le_bytes().to_vec()),
        other => panic!("unexpected {:?}", other),
    }
    let small = CompleteEntry::new_default(5);
    let e = resolve_get(&o, h(1), None, Some((&small, Some(b"hello".to_vec()), None)), None).unwrap().unwrap();
    assert!(e.is_complete());
    assert_eq!(e.size(), 5);
    let big = CompleteEntry::new_default(100_000);
    let e = resolve_get(&o, h(2), None, Some((&big, None, None)), None).unwrap().unwrap();
    match e.entry.outboard {
        MemOrFile::File(p) => assert_eq!(p, o.owned_outboard_path(&h(2))),
        other => panic!("unexpected {:?}", other),
    }
    let row = PartialEntryData::new(32768, [5; 16]);
    let p = resolve_get(&o, h(3), None, None, Some(row)).unwrap().unwrap();
    assert!(!p.is_complete());
    assert_eq!(p.size(), 32768);
    assert!(resolve_get(&o, h(4), None, None, None).unwrap().is_none());

    match resolve_possibly_partial(&o, h(3), None, Some(row), None) {
        PossiblyPartialEntry::Partial(PartialEntry { size, outboard: Some(FileHandle(ob)), .. }) => {
            assert_eq!(size, 32768);
            assert_eq!(ob, o.partial_outboard_path(h(3), &[5; 16]));
        }
        other => panic!("unexpected {:?}", other),
    }
    let orphan = CompleteEntry { size: 3, owned_data: false, external: vec![] };
    assert!(matches!(
        resolve_possibly_partial(&o, h(3), None, None, Some((&orphan, None, None))),
        PossiblyPartialEntry::NotFound
    ));
    assert_eq!(
        resolve_get(&o, h(3), None, Some((&orphan, None, None)), None).err(),
        Some(StoreError::NoValidPath)
    );
}

#[test]
fn schema_version() {
    let v = version_bytes();
    assert_eq!(v, vec![0, 0, 0, 0, 0, 0, 0, 2]);
    assert_eq!(check_version(None), Ok(true));
    assert_eq!(check_version(Some(&v)), Ok(false));
    assert_eq!(check_version(Some(&[0, 0, 0, 0, 0, 0, 0, 3])), Err(StoreError::UnsupportedVersion));
    assert_eq!(check_version(Some(&[2])), Err(StoreError::MalformedVersion));
    assert!(needs_migration(false, true, false, false));
    assert!(!needs_migration(true, true, true, true));
    assert!(!needs_migration(false, false, false, false));
}

fn names(v: &[String]) -> Vec<String> {
    v.to_vec()
}

#[test]
fn partial_recovery_after_restart() {
    let o = opts();
    let hash = h(9);
    let uuid = [4u8; 16];
    let partial_names = names(&[
        iroh_bytes::filename::FileName::PartialData(hash, uuid).to_string(),
        iroh_bytes::filename::FileName::PartialOutboard(hash, uuid).to_string(),
        "unrelated.txt".to_string(),
    ]);
    let index = FileIndex { complete: index_complete(&vec![]), partial: index_partial(&partial_names) };
    assert_eq!(index.partial.len(), 1);
    let stats = vec![PartialStat { current_size: Some(16384), head: Some(32768u64.to_le_bytes()) }];
    let r = reconcile(&o, &index, &vec![], &stats);
    assert_eq!(r.partial.len(), 1);
    assert_eq!(r.partial[0].0, hash);
    assert_eq!(r.partial[0].1.size, 32768);
    assert_eq!(r.partial[0].1.uuid, uuid);
    assert!(r.remove.is_empty());
}

#[test]
fn reconcile_picks_largest_partial_and_cleans_up() {
    let o = opts();
    let hash = h(9);
    let partial_names = names(&[
        iroh_bytes::filename::FileName::PartialData(hash, [1; 16]).to_string(),
        iroh_bytes::filename::FileName::PartialOutboard(hash, [1; 16]).to_string(),
        iroh_bytes::filename::FileName::PartialData(hash, [2; 16]).to_string(),
        iroh_bytes::filename::FileName::PartialOutboard(hash, [2; 16]).to_string(),
        iroh_bytes::filename::FileName::PartialData(h(8), [3; 16]).to_string(),
    ]);
    let index = FileIndex { complete: index_complete(&vec![]), partial: index_partial(&partial_names) };
    assert_eq!(index.partial.len(), 3);
    let head = Some(100_000u64.to_le_bytes());
    let stats = vec![
        PartialStat { current_size: Some(10), head },
        PartialStat { current_size: Some(20), head },
        PartialStat { current_size: Some(5), head: None },
    ];
    let r = reconcile(&o, &index, &vec![], &stats);
    assert_eq!(r.partial.len(), 1);
    assert_eq!(r.partial[0].1.uuid, [2; 16]);
    let mut removed = r.remove.clone();
    removed.sort();
    let mut expected = vec![
        o.partial_data_path(hash, &[1; 16]),
        o.partial_outboard_path(hash, &[1; 16]),
        o.partial_data_path(h(8), &[3; 16]),
    ];
    expected.sort();
    assert_eq!(removed, expected);
}

#[test]
fn reconcile_complete_entries() {
    let o = opts();
    let complete_names = names(&[
        iroh_bytes::filename::FileName::Data(h(1)).to_string(),
        iroh_bytes::filename::FileName::Data(h(2)).to_string(),
        iroh_bytes::filename::FileName::Data(h(3)).to_string(),
        iroh_bytes::filename::FileName::Outboard(h(3)).to_string(),
        iroh_bytes::filename::FileName::Paths(h(4)).to_string(),
    ]);
    let groups = index_complete(&complete_names);
    assert_eq!(groups.len(), 4);
    let stats = vec![
        CompleteStat { size: Some(10), external: vec![] },
        // large, but its outboard is missing: dropped
        CompleteStat { size: Some(100_000), external: vec![] },
        CompleteStat { size: Some(100_000), external: vec![] },
        CompleteStat { size: Some(7), external: vec!["/a".to_string(), "/a".to_string()] },
    ];
    // a path list that names no path, with no owned data, gives no row
    let lone = index_complete(&names(&[iroh_bytes::filename::FileName::Paths(h(5)).to_string()]));
    let lone_index = FileIndex { complete: lone, partial: vec![] };
    let empty_list = vec![CompleteStat { size: Some(3), external: vec![] }];
    assert!(reconcile(&o, &lone_index, &empty_list, &vec![]).complete.is_empty());
    let partial_names = names(&[
        iroh_bytes::filename::FileName::PartialData(h(1), [1; 16]).to_string(),
        iroh_bytes::filename::FileName::PartialOutboard(h(1), [1; 16]).to_string(),
    ]);
    let index = FileIndex { complete: groups, partial: index_partial(&partial_names) };
    let pstats = vec![PartialStat { current_size: Some(10), head: Some(10u64.to_le_bytes()) }];
    let r = reconcile(&o, &index, &stats, &pstats);
    let hashes: Vec<_> = r.complete.iter().map(|(h, _)| *h).collect();
    assert_eq!(hashes, vec![h(1), h(3), h(4)]);
    assert!(r.complete[0].1.owned_data);
    assert!(!r.complete[2].1.owned_data);
    assert_eq!(r.complete[2].1.external, vec!["/a".to_string()]);
    // the partial of a complete hash is dropped with its files
    assert!(r.partial.is_empty());
    assert_eq!(r.remove.len(), 2);
}
