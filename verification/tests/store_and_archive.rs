use std::io::Write;

use zip_rebuild::archive::{classify, entries_well_formed, list_entries, EntryMeta};
use zip_rebuild::dump::dump;
use zip_rebuild::rebuild::rebuild;
use zip_rebuild::shared::copy_bytes;
use zip_rebuild::store::BlobStore;

#[test]
fn copy_bytes_appends_range() {
    let src: Vec<u8> = (0u8..20).collect();
    let mut dst: Vec<u8> = vec![100, 101];
    copy_bytes(&src, 3, 5, &mut dst);
    assert_eq!(dst, vec![100, 101, 3, 4, 5, 6, 7]);
}

#[test]
fn blob_store_first_writer_wins() {
    let mut store = BlobStore::new();
    assert!(!store.contains(&"k".to_string()));
    assert!(store.insert_if_absent("k".to_string(), vec![1, 2]));
    assert!(!store.insert_if_absent("k".to_string(), vec![3, 4]));
    assert_eq!(store.get(&"k".to_string()).unwrap(), &vec![1, 2]);
    assert_eq!(store.blob_count(), 1);
    let (name, data) = store.blob_at(0).clone();
    assert_eq!(name, "k");
    assert_eq!(data, vec![1, 2]);
    assert!(store.get(&"absent".to_string()).is_none());
}

#[test]
fn classify_drops_directories_and_sorts() {
    let entries = vec![
        EntryMeta { offset: 50, size: 3, deflate: false, name: "c".to_string(), is_dir: false },
        EntryMeta { offset: 5, size: 2, deflate: true, name: "a".to_string(), is_dir: false },
        EntryMeta { offset: 20, size: 0, deflate: false, name: "d/".to_string(), is_dir: true },
        EntryMeta { offset: 30, size: 1, deflate: false, name: "b".to_string(), is_dir: false },
    ];
    let sorted = classify(&entries);
    let names: Vec<&str> = sorted.iter().map(|e| e.name.as_str()).collect();
    assert_eq!(names, vec!["a", "b", "c"]);
    assert!(entries_well_formed(&sorted, 60));
    assert!(!entries_well_formed(&sorted, 50));
}

fn build_stored_zip() -> Vec<u8> {
    let mut writer = zip::ZipWriter::new(std::io::Cursor::new(Vec::new()));
    let stored = zip::write::SimpleFileOptions::default()
        .compression_method(zip::CompressionMethod::Stored);
    writer.add_directory("docs/", stored).expect("add dir");
    writer.start_file("docs/hello.txt", stored).expect("start file");
    writer.write_all(b"hello, archive").expect("write");
    writer.start_file("data.bin", stored).expect("start file");
    writer.write_all(&[0u8, 1, 2, 3, 4, 5, 6, 7]).expect("write");
    writer.finish().expect("finish").into_inner()
}

#[test]
fn list_entries_reads_real_archive() {
    let archive = build_stored_zip();
    let entries = list_entries(&archive).expect("enumeration failed");
    assert_eq!(entries.len(), 3);
    let file_entries: Vec<&EntryMeta> = entries.iter().filter(|e| !e.is_dir).collect();
    assert_eq!(file_entries.len(), 2);
    let names: Vec<&str> = file_entries.iter().map(|e| e.name.as_str()).collect();
    assert!(names.contains(&"docs/hello.txt"));
    assert!(names.contains(&"data.bin"));
    for e in &file_entries {
        assert!(!e.deflate);
        assert!(e.offset as usize + e.size as usize <= archive.len());
    }
    let hello = file_entries.iter().find(|e| e.name == "docs/hello.txt").unwrap();
    assert_eq!(hello.size, 14);
    let start = hello.offset as usize;
    assert_eq!(&archive[start..start + 14], b"hello, archive");
}

#[test]
fn list_entries_rejects_garbage() {
    let garbage: Vec<u8> = vec![0x13; 40];
    assert!(list_entries(&garbage).is_err());
}

#[test]
fn roundtrip_real_archive() {
    let archive = build_stored_zip();
    let entries = list_entries(&archive).expect("enumeration failed");
    let decoded: Vec<Option<(Vec<u8>, Vec<u8>)>> = entries.iter().map(|_| None).collect();
    let mut store = BlobStore::new();
    let info = dump(&archive, &entries, &decoded, &"real.zip".to_string(), false, &mut store)
        .expect("dump failed");
    let reencoded: Vec<Option<Vec<u8>>> = info.files.iter().map(|_| None).collect();
    let mut cache = BlobStore::new();
    let out = rebuild(&info, &store, &reencoded, &mut cache, false).expect("rebuild failed");
    assert_eq!(out, archive);
}

#[test]
fn roundtrip_real_archive_content_addressed() {
    let archive = build_stored_zip();
    let entries = list_entries(&archive).expect("enumeration failed");
    let decoded: Vec<Option<(Vec<u8>, Vec<u8>)>> = entries.iter().map(|_| None).collect();
    let mut store = BlobStore::new();
    let info = dump(&archive, &entries, &decoded, &"real.zip".to_string(), true, &mut store)
        .expect("dump failed");
    for rec in &info.files {
        // Content-addressed names are 64-character blake3 hex digests.
        assert_eq!(rec.data.len(), 64);
    }
    let reencoded: Vec<Option<Vec<u8>>> = info.files.iter().map(|_| None).collect();
    let mut cache = BlobStore::new();
    let out = rebuild(&info, &store, &reencoded, &mut cache, false).expect("rebuild failed");
    assert_eq!(out, archive);
}
