use iroh_bytes::entry::{CompleteEntry, PartialEntryData, StoreError};
use iroh_bytes::filename::{FileName, FileNameError};
use iroh_bytes::store::{sync_row, DeletePlan, Options};

fn h(b: u8) -> iroh_bytes::hash::Hash {
    iroh_bytes::hash::Hash::from([b; 32])
}

fn same(a: &CompleteEntry, b: &CompleteEntry) -> bool {
    let mut pa = a.external.clone();
    let mut pb = b.external.clone();
    pa.sort();
    pb.sort();
    a.size == b.size && a.owned_data == b.owned_data && pa == pb
}

#[test]
fn sync_keeps_external_paths_as_not_owned() {
    let scanned = CompleteEntry::new_default(100);
    let stored = CompleteEntry { size: 100, owned_data: true, external: vec!["/e".to_string()] };
    let r = sync_row(Some(scanned), Some(&stored)).unwrap().unwrap();
    assert!(r.owned_data);
    assert_eq!(r.external, vec!["/e".to_string()]);
    // a stored row without paths leaves the files to decide
    let stored = CompleteEntry::new_default(100);
    let r = sync_row(Some(CompleteEntry::new_default(100)), Some(&stored)).unwrap().unwrap();
    assert!(r.external.is_empty());
    assert!(sync_row(None, Some(&stored)).unwrap().is_none());
    // a row that only the index knows survives when it has paths
    let stored = CompleteEntry::new_external(7, "/x".to_string());
    let r = sync_row(None, Some(&stored)).unwrap().unwrap();
    assert!(!r.owned_data);
    assert_eq!(r.size, 7);
}

#[test]
fn sync_twice_is_sync_once() {
    let scanned = || CompleteEntry { size: 100, owned_data: true, external: vec!["/a".to_string()] };
    let stored = CompleteEntry { size: 100, owned_data: false, external: vec!["/b".to_string()] };
    let once = sync_row(Some(scanned()), Some(&stored)).unwrap().unwrap();
    let twice = sync_row(Some(scanned()), Some(&once)).unwrap().unwrap();
    assert!(same(&once, &twice));
}

#[test]
fn sync_size_mismatch() {
    let stored = CompleteEntry::new_external(5, "/b".to_string());
    assert_eq!(
        sync_row(Some(CompleteEntry::new_default(6)), Some(&stored)).err(),
        Some(StoreError::SizeMismatch)
    );
}

#[test]
fn delete_plan_lists_files() {
    let o = Options::new("/s");
    let mut plan = DeletePlan::new();
    let big = CompleteEntry::new_default(100_000);
    plan.add(&o, h(1), Some(&big), Some(PartialEntryData::new(100_000, [2; 16])));
    let small = CompleteEntry::new_external(10, "/x".to_string());
    plan.add(&o, h(3), Some(&small), Some(PartialEntryData::new(10, [4; 16])));
    plan.add(&o, h(5), None, None);
    assert_eq!(plan.data, vec![o.owned_data_path(&h(1))]);
    assert_eq!(plan.outboard, vec![o.owned_outboard_path(&h(1))]);
    assert_eq!(
        plan.partial_data,
        vec![o.partial_data_path(h(1), &[2; 16]), o.partial_data_path(h(3), &[4; 16])]
    );
    assert_eq!(
        plan.partial_outboard,
        vec![o.partial_outboard_path(h(1), &[2; 16]), o.partial_outboard_path(h(3), &[4; 16])]
    );
}

#[test]
fn file_name_errors() {
    assert_eq!(FileName::from_path("/"), Err(FileNameError::NoFileName));
    assert_eq!(FileName::from_path("/dir/notes.txt"), Err(FileNameError::InvalidFileName));
    assert_eq!(FileName::from_str("abc.meta"), Err(()));
    assert_eq!(FileName::from_str(".meta"), Ok(FileName::Meta(vec![])));
}

#[test]
fn temp_tags_listed_once() {
    let mut s = iroh_bytes::state::State::new();
    let a = iroh_bytes::hash::HashAndFormat { hash: h(1), format: iroh_bytes::hash::BlobFormat::raw() };
    let b = iroh_bytes::hash::HashAndFormat { hash: h(1), format: iroh_bytes::hash::BlobFormat::collection() };
    s.on_clone(a);
    s.on_clone(a);
    s.on_clone(b);
    assert_eq!(s.temp_tags(), vec![a, b]);
    s.on_drop(a);
    s.on_drop(a);
    assert_eq!(s.temp_tags(), vec![b]);
}

#[test]
fn progress_reader_counts() {
    let mut r = iroh_bytes::entry::ProgressReader2::new((), ());
    assert_eq!(r.offset, 0);
    assert_eq!(r.advance(10), 10);
    assert_eq!(r.advance(5), 15);
    let _marker = iroh_bytes::entry::NonSend::new();
}

#[test]
fn sync_index_twice_is_sync_once() {
    let scanned = || {
        vec![
            (h(1), CompleteEntry::new_default(100)),
            (h(2), CompleteEntry::new_external(5, "/s".to_string())),
        ]
    };
    let stored = vec![
        (h(1), CompleteEntry { size: 100, owned_data: true, external: vec!["/e".to_string()] }),
        (h(3), CompleteEntry::new_external(9, "/only-in-index".to_string())),
        (h(4), CompleteEntry::new_default(9)),
    ];
    let once = iroh_bytes::store::sync_index(&scanned(), &stored).unwrap();
    let keys: Vec<_> = once.iter().map(|(k, _)| *k).collect();
    assert_eq!(keys, vec![h(1), h(2), h(3)]);
    assert_eq!(once[0].1.external, vec!["/e".to_string()]);
    assert!(once[0].1.owned_data);
    assert!(!once[2].1.owned_data);
    let twice = iroh_bytes::store::sync_index(&scanned(), &once).unwrap();
    assert_eq!(once.len(), twice.len());
    for (a, b) in once.iter().zip(twice.iter()) {
        assert_eq!(a.0, b.0);
        assert!(same(&a.1, &b.1));
    }
    let conflict = vec![(h(2), CompleteEntry::new_external(6, "/c".to_string()))];
    assert_eq!(
        iroh_bytes::store::sync_index(&scanned(), &conflict).err(),
        Some(StoreError::SizeMismatch)
    );
}
