use zip_rebuild::archive::EntryMeta;
use zip_rebuild::dump::dump;
use zip_rebuild::rebuild::rebuild;
use zip_rebuild::store::BlobStore;
use zip_rebuild::Error;

fn entry(offset: u64, size: u64, deflate: bool, name: &str, is_dir: bool) -> EntryMeta {
    EntryMeta { offset, size, deflate, name: name.to_string(), is_dir }
}

/// An archive of `len` pseudo-random but deterministic bytes.
fn bytes(len: usize) -> Vec<u8> {
    (0..len).map(|i| (i * 7 + 13) as u8).collect()
}

#[test]
fn roundtrip_raw_entries() {
    let archive = bytes(100);
    let entries = vec![entry(30, 5, false, "b.txt", false), entry(10, 4, false, "a.txt", false)];
    let decoded: Vec<Option<(Vec<u8>, Vec<u8>)>> = vec![None, None];
    let mut store = BlobStore::new();
    let info = dump(&archive, &entries, &decoded, &"arc.zip".to_string(), false, &mut store)
        .expect("dump failed");
    assert_eq!(info.files.len(), 2);
    // Classified order is ascending by offset.
    assert_eq!(info.files[0].offset, 10);
    assert_eq!(info.files[1].offset, 30);

    let reencoded: Vec<Option<Vec<u8>>> = vec![None, None];
    let mut cache = BlobStore::new();
    let out = rebuild(&info, &store, &reencoded, &mut cache, false).expect("rebuild failed");
    assert_eq!(out, archive);
}

#[test]
fn roundtrip_deflate_entries() {
    let archive = bytes(120);
    let entries = vec![entry(20, 16, true, "z.bin", false)];
    // The codec collaborator's decode result: opaque diff plus unpacked bytes.
    let decoded = vec![Some((vec![1u8, 2, 3], vec![9u8; 40]))];
    let mut store = BlobStore::new();
    let info = dump(&archive, &entries, &decoded, &"arc.zip".to_string(), false, &mut store)
        .expect("dump failed");
    assert_eq!(info.files.len(), 1);
    assert_eq!(info.files[0].diff.as_deref(), Some("z.bin.preflate"));
    // The diff and unpacked blobs were externalized under the entry's name.
    assert_eq!(store.get(&"z.bin".to_string()).unwrap(), &vec![9u8; 40]);
    assert_eq!(store.get(&"z.bin.preflate".to_string()).unwrap(), &vec![1u8, 2, 3]);

    // A true-inverse codec re-encodes the pair back to the original bytes.
    let comp: Vec<u8> = archive[20..36].to_vec();
    let reencoded = vec![Some(comp)];
    let mut cache = BlobStore::new();
    let out = rebuild(&info, &store, &reencoded, &mut cache, false).expect("rebuild failed");
    assert_eq!(out, archive);
}

#[test]
fn scenario_two_entry_archive() {
    // Archive with one stored entry "x.txt" (4 bytes, offset 40) and one
    // deflate entry "y.bin" (offset 80, compressed size 20).
    let archive = bytes(128);
    let entries = vec![
        entry(40, 4, false, "x.txt", false),
        entry(80, 20, true, "y.bin", false),
    ];
    let decoded = vec![None, Some((vec![7u8, 7], vec![5u8; 33]))];
    let mut store = BlobStore::new();
    let info = dump(&archive, &entries, &decoded, &"a.zip".to_string(), false, &mut store)
        .expect("dump failed");

    assert_eq!(info.original_filename, "a.zip");
    assert_eq!(info.headers, "a.zip.headers");
    assert_eq!(info.files.len(), 2);
    assert_eq!(info.files[0].offset, 40);
    assert_eq!(info.files[0].data, "x.txt");
    assert!(info.files[0].diff.is_none());
    assert!(info.files[0].hash.is_none());
    assert_eq!(info.files[1].offset, 80);
    assert_eq!(info.files[1].data, "y.bin");
    assert_eq!(info.files[1].diff.as_deref(), Some("y.bin.preflate"));
    assert!(info.files[1].hash.is_none());

    // The four blobs: x.txt, y.bin, y.bin.preflate, a.zip.headers.
    assert_eq!(store.blob_count(), 4);
    assert_eq!(store.get(&"x.txt".to_string()).unwrap(), &archive[40..44].to_vec());

    let reencoded = vec![None, Some(archive[80..100].to_vec())];
    let mut cache = BlobStore::new();
    let out = rebuild(&info, &store, &reencoded, &mut cache, false).expect("rebuild failed");
    assert_eq!(out, archive);
}

#[test]
fn idempotent_dump() {
    let archive = bytes(90);
    let entries = vec![entry(12, 8, false, "f.dat", false)];
    let decoded: Vec<Option<(Vec<u8>, Vec<u8>)>> = vec![None];
    let mut store = BlobStore::new();
    let name = "arc.zip".to_string();
    let info1 = dump(&archive, &entries, &decoded, &name, true, &mut store).expect("first dump");
    let count = store.blob_count();
    let info2 = dump(&archive, &entries, &decoded, &name, true, &mut store).expect("second dump");
    assert_eq!(store.blob_count(), count);
    assert_eq!(info1.original_filename, info2.original_filename);
    assert_eq!(info1.headers, info2.headers);
    assert_eq!(info1.files.len(), info2.files.len());
    assert_eq!(info1.files[0].data, info2.files[0].data);
}

#[test]
fn cross_archive_dedup() {
    // Two different archives share one entry's compressed bytes.
    let shared: Vec<u8> = vec![42u8; 16];
    let mut a1 = bytes(64);
    let mut a2: Vec<u8> = bytes(64).iter().map(|b| b.wrapping_add(1)).collect();
    a1[24..40].copy_from_slice(&shared);
    a2[8..24].copy_from_slice(&shared);
    let e1 = vec![entry(24, 16, false, "one.bin", false)];
    let e2 = vec![entry(8, 16, false, "two.bin", false)];
    let decoded: Vec<Option<(Vec<u8>, Vec<u8>)>> = vec![None];
    let mut store = BlobStore::new();
    let info1 = dump(&a1, &e1, &decoded, &"a1.zip".to_string(), true, &mut store).expect("dump 1");
    let count = store.blob_count();
    let info2 = dump(&a2, &e2, &decoded, &"a2.zip".to_string(), true, &mut store).expect("dump 2");
    // Both manifests reference the same content-addressed blob; the second
    // dump added only its own headers blob.
    assert_eq!(info1.files[0].data, info2.files[0].data);
    assert_eq!(store.blob_count(), count + 1);
}

#[test]
fn cache_correctness() {
    let archive = bytes(110);
    let entries = vec![entry(16, 24, true, "d.bin", false)];
    let decoded = vec![Some((vec![3u8, 1], vec![8u8; 50]))];
    let mut store = BlobStore::new();
    let info = dump(&archive, &entries, &decoded, &"c.zip".to_string(), true, &mut store)
        .expect("dump failed");
    assert!(info.files[0].hash.is_some());

    let comp = archive[16..40].to_vec();
    let reencoded = vec![Some(comp)];

    // First rebuild populates the cache.
    let mut cache = BlobStore::new();
    let out1 = rebuild(&info, &store, &reencoded, &mut cache, true).expect("rebuild 1");
    assert_eq!(cache.blob_count(), 1);
    assert!(cache.contains(info.files[0].hash.as_ref().unwrap()));

    // Second rebuild is served from the cache: no re-encode result needed.
    let none: Vec<Option<Vec<u8>>> = vec![None];
    let out2 = rebuild(&info, &store, &none, &mut cache, true).expect("rebuild 2");
    assert_eq!(out1, out2);

    // An empty cache with caching off gives the same output.
    let mut empty = BlobStore::new();
    let out3 = rebuild(&info, &store, &reencoded, &mut empty, false).expect("rebuild 3");
    assert_eq!(out1, out3);
    assert_eq!(out1, archive);
}

#[test]
fn directories_only() {
    let archive = bytes(70);
    let entries = vec![
        entry(0, 0, false, "dir/", true),
        entry(30, 0, false, "dir/sub/", true),
    ];
    let decoded: Vec<Option<(Vec<u8>, Vec<u8>)>> = vec![];
    let mut store = BlobStore::new();
    let info = dump(&archive, &entries, &decoded, &"d.zip".to_string(), false, &mut store)
        .expect("dump failed");
    assert!(info.files.is_empty());
    assert_eq!(store.get(&"d.zip.headers".to_string()).unwrap(), &archive);

    let reencoded: Vec<Option<Vec<u8>>> = vec![];
    let mut cache = BlobStore::new();
    let out = rebuild(&info, &store, &reencoded, &mut cache, false).expect("rebuild failed");
    assert_eq!(out, archive);
}

#[test]
fn offsets_and_length_accounting() {
    let archive = bytes(128);
    let entries = vec![
        entry(40, 4, false, "x.txt", false),
        entry(80, 20, true, "y.bin", false),
    ];
    let decoded = vec![None, Some((vec![7u8], vec![5u8; 10]))];
    let mut store = BlobStore::new();
    let info = dump(&archive, &entries, &decoded, &"a.zip".to_string(), false, &mut store)
        .expect("dump failed");
    for w in info.files.windows(2) {
        assert!(w[0].offset <= w[1].offset);
    }
    let headers = store.get(&info.headers).unwrap();
    let total: u64 = 4 + 20;
    assert_eq!(headers.len() as u64 + total, archive.len() as u64);
}

#[test]
fn content_addressed_names_are_digests() {
    let archive = bytes(96);
    let entries = vec![entry(10, 6, false, "raw.bin", false)];
    let decoded: Vec<Option<(Vec<u8>, Vec<u8>)>> = vec![None];
    let mut store = BlobStore::new();
    let info = dump(&archive, &entries, &decoded, &"h.zip".to_string(), true, &mut store)
        .expect("dump failed");
    // The blob names are the blake3 hex digests of the blob contents.
    let comp_digest = blake3::hash(&archive[10..16]).to_string();
    assert_eq!(info.files[0].data, comp_digest);
    let headers = store.get(&info.headers).unwrap().clone();
    assert_eq!(info.headers, blake3::hash(&headers).to_string());
    assert_eq!(store.get(&comp_digest).unwrap(), &archive[10..16].to_vec());
}

#[test]
fn deflate_digests_cover_all_three_blobs() {
    let archive = bytes(80);
    let diff = vec![11u8, 12, 13];
    let unpacked = vec![6u8; 25];
    let entries = vec![entry(8, 10, true, "p.bin", false)];
    let decoded = vec![Some((diff.clone(), unpacked.clone()))];
    let mut store = BlobStore::new();
    let info = dump(&archive, &entries, &decoded, &"p.zip".to_string(), true, &mut store)
        .expect("dump failed");
    assert_eq!(info.files[0].data, blake3::hash(&unpacked).to_string());
    assert_eq!(info.files[0].diff.as_deref(), Some(blake3::hash(&diff).to_string().as_str()));
    assert_eq!(
        info.files[0].hash.as_deref(),
        Some(blake3::hash(&archive[8..18]).to_string().as_str())
    );
}

#[test]
fn dump_rejects_overlapping_entries() {
    let archive = bytes(50);
    let entries = vec![
        entry(10, 20, false, "a", false),
        entry(15, 10, false, "b", false),
    ];
    let decoded: Vec<Option<(Vec<u8>, Vec<u8>)>> = vec![None, None];
    let mut store = BlobStore::new();
    let r = dump(&archive, &entries, &decoded, &"o.zip".to_string(), false, &mut store);
    assert_eq!(r.unwrap_err(), Error::ZipError);
    assert_eq!(store.blob_count(), 0);
}

#[test]
fn dump_rejects_out_of_bounds_entry() {
    let archive = bytes(50);
    let entries = vec![entry(40, 20, false, "a", false)];
    let decoded: Vec<Option<(Vec<u8>, Vec<u8>)>> = vec![None];
    let mut store = BlobStore::new();
    let r = dump(&archive, &entries, &decoded, &"o.zip".to_string(), false, &mut store);
    assert_eq!(r.unwrap_err(), Error::ZipError);
}

#[test]
fn dump_without_decode_result_fails() {
    let archive = bytes(60);
    let entries = vec![entry(5, 10, true, "d.bin", false)];
    let decoded: Vec<Option<(Vec<u8>, Vec<u8>)>> = vec![None];
    let mut store = BlobStore::new();
    let r = dump(&archive, &entries, &decoded, &"p.zip".to_string(), false, &mut store);
    assert_eq!(r.unwrap_err(), Error::PreflateError);
}

#[test]
fn rebuild_missing_headers_blob_fails() {
    let info = zip_rebuild::RebuildInfo {
        original_filename: "a.zip".to_string(),
        headers: "a.zip.headers".to_string(),
        files: vec![],
    };
    let store = BlobStore::new();
    let reencoded: Vec<Option<Vec<u8>>> = vec![];
    let mut cache = BlobStore::new();
    let r = rebuild(&info, &store, &reencoded, &mut cache, false);
    assert_eq!(r.unwrap_err(), Error::IoError);
}

#[test]
fn rebuild_missing_data_blob_fails() {
    let mut store = BlobStore::new();
    store.insert_if_absent("a.zip.headers".to_string(), vec![0u8; 30]);
    let info = zip_rebuild::RebuildInfo {
        original_filename: "a.zip".to_string(),
        headers: "a.zip.headers".to_string(),
        files: vec![zip_rebuild::ReinsertInfo {
            offset: 10,
            data: "missing.bin".to_string(),
            diff: None,
            hash: None,
        }],
    };
    let reencoded: Vec<Option<Vec<u8>>> = vec![None];
    let mut cache = BlobStore::new();
    let r = rebuild(&info, &store, &reencoded, &mut cache, false);
    assert_eq!(r.unwrap_err(), Error::IoError);
}

#[test]
fn rebuild_without_reencode_result_fails() {
    let mut store = BlobStore::new();
    store.insert_if_absent("a.zip.headers".to_string(), vec![0u8; 30]);
    store.insert_if_absent("d".to_string(), vec![1u8; 4]);
    store.insert_if_absent("d.preflate".to_string(), vec![2u8; 4]);
    let info = zip_rebuild::RebuildInfo {
        original_filename: "a.zip".to_string(),
        headers: "a.zip.headers".to_string(),
        files: vec![zip_rebuild::ReinsertInfo {
            offset: 10,
            data: "d".to_string(),
            diff: Some("d.preflate".to_string()),
            hash: None,
        }],
    };
    let reencoded: Vec<Option<Vec<u8>>> = vec![None];
    let mut cache = BlobStore::new();
    let r = rebuild(&info, &store, &reencoded, &mut cache, false);
    assert_eq!(r.unwrap_err(), Error::PreflateError);
}
