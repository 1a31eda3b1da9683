//! The dump engine: walks the classified entry table, segments the archive
//! into header regions and entry data regions, externalizes each data region
//! as a named blob (raw bytes, or the codec's diff and unpacked bytes for
//! deflate entries), and produces the manifest that drives a later rebuild.
//!
//! The codec is an external collaborator: the caller decodes each deflate
//! entry's compressed bytes and hands the `(diff, unpacked)` pairs in, one
//! per classified entry, aligned by index.
use vstd::prelude::*;
use vstd::string::StringExecFns;

use crate::archive::{
    classify, classify_spec, entries_well_formed, entries_wf, views_of, EntryMeta, EntrySpec,
};
use crate::digest::{digest_of, digest_string};
use crate::shared::copy_bytes;
use crate::store::{store_after, write_blob, BlobStore};
use crate::{Error, RebuildInfo, RebuildSpec, ReinsertInfo, ReinsertSpec};

verus! {

/// The entry's compressed bytes as they lie in the archive.
pub open spec fn comp_bytes(a: Seq<u8>, e: EntrySpec) -> Seq<u8> {
    a.subrange(e.offset, e.offset + e.size)
}

/// Where the archive's data region `i` was preceded by: the end of entry
/// `i - 1`'s data, or the start of the archive.
pub open spec fn end_before(es: Seq<EntrySpec>, i: int) -> int {
    if i <= 0 {
        0
    } else {
        es[i - 1].offset + es[i - 1].size
    }
}

/// The sum of the first `i` entries' compressed sizes.
pub open spec fn total_size(es: Seq<EntrySpec>, i: int) -> int
    decreases i,
{
    if i <= 0 {
        0
    } else {
        total_size(es, i - 1) + es[i - 1].size
    }
}

/// The header bytes preceding each of the first `i` entries' data regions,
/// concatenated in archive order.
pub open spec fn gaps_upto(a: Seq<u8>, es: Seq<EntrySpec>, i: int) -> Seq<u8>
    decreases i,
{
    if i <= 0 {
        Seq::empty()
    } else {
        gaps_upto(a, es, i - 1) + a.subrange(end_before(es, i - 1), es[i - 1].offset)
    }
}

/// Every archive byte not inside a data region: the local headers and gaps,
/// then the central directory and trailer, in original order.
pub open spec fn headers_of(a: Seq<u8>, es: Seq<EntrySpec>) -> Seq<u8> {
    gaps_upto(a, es, es.len() as int) + a.subrange(end_before(es, es.len() as int), a.len() as int)
}

/// The views of the caller-supplied decode results.
pub open spec fn decoded_views(s: Seq<Option<(Vec<u8>, Vec<u8>)>>) -> Seq<
    Option<(Seq<u8>, Seq<u8>)>,
> {
    s.map_values(
        |o: Option<(Vec<u8>, Vec<u8>)>|
            match o {
                Option::None => Option::<(Seq<u8>, Seq<u8>)>::None,
                Option::Some(p) => Option::Some((p.0@, p.1@)),
            },
    )
}

/// The decode result supplied for entry `i`; absent entries count as failed.
pub open spec fn decoded_at(dec: Seq<Option<(Seq<u8>, Seq<u8>)>>, i: int) -> Option<
    (Seq<u8>, Seq<u8>),
> {
    if 0 <= i < dec.len() {
        dec[i]
    } else {
        Option::None
    }
}

/// Whether a decode result is supplied for every deflate entry.
pub open spec fn decodes_ok(es: Seq<EntrySpec>, dec: Seq<Option<(Seq<u8>, Seq<u8>)>>) -> bool {
    forall|i: int|
        0 <= i < es.len() && es[i].deflate ==> #[trigger] decoded_at(dec, i) is Some
}

/// The blob name of a raw entry's bytes.
pub open spec fn raw_data_name(a: Seq<u8>, e: EntrySpec, hash: bool) -> Seq<char> {
    if hash {
        digest_of(comp_bytes(a, e))
    } else {
        e.name
    }
}

/// The blob name of a deflate entry's unpacked bytes.
pub open spec fn deflate_data_name(e: EntrySpec, unpacked: Seq<u8>, hash: bool) -> Seq<char> {
    if hash {
        digest_of(unpacked)
    } else {
        e.name
    }
}

/// The blob name of a deflate entry's codec diff.
pub open spec fn deflate_diff_name(e: EntrySpec, diff: Seq<u8>, hash: bool) -> Seq<char> {
    if hash {
        digest_of(diff)
    } else {
        e.name + ".preflate"@
    }
}

/// The reinsertion record the dump produces for one classified entry.
pub open spec fn record_spec(
    a: Seq<u8>,
    e: EntrySpec,
    d: Option<(Seq<u8>, Seq<u8>)>,
    hash: bool,
) -> ReinsertSpec {
    if e.deflate {
        let p = d->Some_0;
        ReinsertSpec {
            offset: e.offset,
            data: deflate_data_name(e, p.1, hash),
            diff: Option::Some(deflate_diff_name(e, p.0, hash)),
            hash: if hash {
                Option::Some(digest_of(comp_bytes(a, e)))
            } else {
                Option::None
            },
        }
    } else {
        ReinsertSpec {
            offset: e.offset,
            data: raw_data_name(a, e, hash),
            diff: Option::None,
            hash: Option::None,
        }
    }
}

/// The manifest's record list, in classified order.
pub open spec fn records_of(
    a: Seq<u8>,
    es: Seq<EntrySpec>,
    dec: Seq<Option<(Seq<u8>, Seq<u8>)>>,
    hash: bool,
) -> Seq<ReinsertSpec> {
    Seq::new(es.len(), |i: int| record_spec(a, es[i], decoded_at(dec, i), hash))
}

/// The named blobs one entry contributes, in write order: the codec diff
/// then the unpacked bytes for a deflate entry, the raw bytes otherwise.
pub open spec fn entry_writes(
    a: Seq<u8>,
    e: EntrySpec,
    d: Option<(Seq<u8>, Seq<u8>)>,
    hash: bool,
) -> Seq<(Seq<char>, Seq<u8>)> {
    if e.deflate {
        let p = d->Some_0;
        seq![
            (deflate_diff_name(e, p.0, hash), p.0),
            (deflate_data_name(e, p.1, hash), p.1),
        ]
    } else {
        seq![(raw_data_name(a, e, hash), comp_bytes(a, e))]
    }
}

/// The blob writes of the first `i` entries, in order.
pub open spec fn writes_upto(
    a: Seq<u8>,
    es: Seq<EntrySpec>,
    dec: Seq<Option<(Seq<u8>, Seq<u8>)>>,
    hash: bool,
    i: int,
) -> Seq<(Seq<char>, Seq<u8>)>
    decreases i,
{
    if i <= 0 {
        Seq::empty()
    } else {
        writes_upto(a, es, dec, hash, i - 1) + entry_writes(
            a,
            es[i - 1],
            decoded_at(dec, i - 1),
            hash,
        )
    }
}

/// The headers blob's name: the archive's name suffixed `.headers`, or the
/// digest of the header bytes under content-addressed naming.
pub open spec fn headers_name(a: Seq<u8>, es: Seq<EntrySpec>, base: Seq<char>, hash: bool) -> Seq<
    char,
> {
    if hash {
        digest_of(headers_of(a, es))
    } else {
        base + ".headers"@
    }
}

/// Every blob write of a successful dump, in order: each entry's blobs, then
/// the headers blob.
pub open spec fn dump_writes(
    a: Seq<u8>,
    es: Seq<EntrySpec>,
    dec: Seq<Option<(Seq<u8>, Seq<u8>)>>,
    base: Seq<char>,
    hash: bool,
) -> Seq<(Seq<char>, Seq<u8>)> {
    writes_upto(a, es, dec, hash, es.len() as int) + seq![
        (headers_name(a, es, base, hash), headers_of(a, es)),
    ]
}

/// The manifest a successful dump produces.
pub open spec fn manifest_spec(
    a: Seq<u8>,
    es: Seq<EntrySpec>,
    dec: Seq<Option<(Seq<u8>, Seq<u8>)>>,
    base: Seq<char>,
    hash: bool,
) -> RebuildSpec {
    RebuildSpec {
        original_filename: base,
        headers: headers_name(a, es, base, hash),
        files: records_of(a, es, dec, hash),
    }
}

/// What `dump` guarantees, relating its result and the store's new contents
/// to the archive bytes, the classified entries and the decode results.
pub open spec fn dump_post(
    a: Seq<u8>,
    raw_entries: Seq<EntrySpec>,
    dec: Seq<Option<(Seq<u8>, Seq<u8>)>>,
    base: Seq<char>,
    hash: bool,
    s0: Map<Seq<char>, Seq<u8>>,
    s1: Map<Seq<char>, Seq<u8>>,
    r: Result<RebuildInfo, Error>,
) -> bool {
    let es = classify_spec(raw_entries);
    if !entries_wf(es, a.len() as int) {
        r == Result::<RebuildInfo, Error>::Err(Error::ZipError) && s1 == s0
    } else if !decodes_ok(es, dec) {
        r == Result::<RebuildInfo, Error>::Err(Error::PreflateError) && exists|k: int|
            0 <= k <= es.len() && s1 == #[trigger] store_after(s0, writes_upto(a, es, dec, hash, k))
    } else {
        r matches Result::Ok(m) && m@ == manifest_spec(a, es, dec, base, hash) && s1 == store_after(
            s0,
            dump_writes(a, es, dec, base, hash),
        )
    }
}

/// With well-formed entries, the header bytes gathered before entry `i`
/// and the data bytes of the first `i` entries together make up the archive
/// up to entry `i`'s data region.
pub proof fn lemma_gaps_upto_len(a: Seq<u8>, es: Seq<EntrySpec>, i: int)
    requires
        entries_wf(es, a.len() as int),
        0 <= i <= es.len(),
    ensures
        gaps_upto(a, es, i).len() + total_size(es, i) == end_before(es, i),
        0 <= total_size(es, i),
        0 <= end_before(es, i) <= a.len(),
        end_before(es, i) <= (if i < es.len() {
            es[i].offset
        } else {
            a.len() as int
        }),
    decreases i,
{
    if i > 0 {
        lemma_gaps_upto_len(a, es, i - 1);
    }
}

/// Extends the per-prefix store fold by one entry's writes.
proof fn lemma_writes_step(
    s0: Map<Seq<char>, Seq<u8>>,
    a: Seq<u8>,
    es: Seq<EntrySpec>,
    dec: Seq<Option<(Seq<u8>, Seq<u8>)>>,
    hash: bool,
    i: int,
)
    requires
        0 <= i < es.len(),
    ensures
        store_after(s0, writes_upto(a, es, dec, hash, i + 1)) == store_after(
            store_after(s0, writes_upto(a, es, dec, hash, i)),
            entry_writes(a, es[i], decoded_at(dec, i), hash),
        ),
{
    crate::store::lemma_store_after_app(
        s0,
        writes_upto(a, es, dec, hash, i),
        entry_writes(a, es[i], decoded_at(dec, i), hash),
    );
}

/// Unfolds the store fold over one entry's writes.
proof fn lemma_store_after_small(m: Map<Seq<char>, Seq<u8>>, ws: Seq<(Seq<char>, Seq<u8>)>)
    requires
        1 <= ws.len() <= 2,
    ensures
        ws.len() == 1 ==> store_after(m, ws) == write_blob(m, ws[0].0, ws[0].1),
        ws.len() == 2 ==> store_after(m, ws) == write_blob(
            write_blob(m, ws[0].0, ws[0].1),
            ws[1].0,
            ws[1].1,
        ),
{
    if ws.len() == 1 {
        assert(ws.drop_last() =~= Seq::<(Seq<char>, Seq<u8>)>::empty());
        assert(store_after(m, ws.drop_last()) == m);
        assert(ws.last() == ws[0]);
    } else {
        let w1 = ws.drop_last();
        assert(w1.drop_last() =~= Seq::<(Seq<char>, Seq<u8>)>::empty());
        assert(store_after(m, w1.drop_last()) == m);
        assert(w1.last() == ws[0]);
        assert(store_after(m, w1) == write_blob(m, ws[0].0, ws[0].1));
        assert(ws.last() == ws[1]);
        assert(store_after(m, ws) == write_blob(store_after(m, w1), ws[1].0, ws[1].1));
    }
}

/// Dumps an archive held in memory.
///
/// `entries` is the enumeration collaborator's raw entry table (see
/// [`crate::archive::list_entries`]); `dump` classifies it itself. `decoded`
/// holds the codec collaborator's decode result for each *classified* entry,
/// aligned by index (`None`, and any value for a non-deflate entry, is
/// ignored except that a deflate entry without a result fails the dump).
/// Blobs are written to `store` under the first-writer-wins policy; the
/// returned manifest describes how to reassemble the archive from them.
#[verifier::rlimit(100)]
pub fn dump(
    archive: &Vec<u8>,
    entries: &Vec<EntryMeta>,
    decoded: &Vec<Option<(Vec<u8>, Vec<u8>)>>,
    archive_name: &String,
    hash_names: bool,
    store: &mut BlobStore,
) -> (r: Result<RebuildInfo, Error>)
    requires
        old(store).wf(),
    ensures
        final(store).wf(),
        dump_post(
            archive@,
            views_of(entries@),
            decoded_views(decoded@),
            archive_name@,
            hash_names,
            old(store)@,
            final(store)@,
            r,
        ),
{
    let ghost a = archive@;
    let ghost es = classify_spec(views_of(entries@));
    let ghost dec = decoded_views(decoded@);
    let ghost s0 = old(store)@;
    let alen: usize = archive.len();

    let classified = classify(entries);
    if !entries_well_formed(&classified, alen as u64) {
        return Result::Err(Error::ZipError);
    }
    let n = classified.len();

    let mut files: Vec<ReinsertInfo> = Vec::new();
    let mut headers_acc: Vec<u8> = Vec::new();
    let mut cursor: usize = 0;
    let mut i: usize = 0;
    while i < n
        invariant
            store.wf(),
            s0 == old(store)@,
            alen == archive@.len(),
            a == archive@,
            es == classify_spec(views_of(entries@)),
            dec == decoded_views(decoded@),
            n == classified@.len(),
            views_of(classified@) == es,
            dec.len() == decoded@.len(),
            entries_wf(es, alen as int),
            i <= n,
            cursor == end_before(es, i as int),
            headers_acc@ == gaps_upto(a, es, i as int),
            store@ == store_after(s0, writes_upto(a, es, dec, hash_names, i as int)),
            files@.len() == i,
            forall|j: int|
                0 <= j < i ==> files@[j]@ == record_spec(a, es[j], decoded_at(dec, j), hash_names),
            forall|j: int| 0 <= j < i ==> !(es[j].deflate && decoded_at(dec, j) is None),
        decreases n - i,
    {
        proof {
            lemma_gaps_upto_len(a, es, i as int);
            lemma_gaps_upto_len(a, es, i + 1 as int);
            lemma_writes_step(s0, a, es, dec, hash_names, i as int);
        }
        let e_offset_u = classified[i].offset;
        let e_size_u = classified[i].size;
        let e_offset: usize = e_offset_u as usize;
        let e_size: usize = e_size_u as usize;
        assert(e_offset == es[i as int].offset && e_size == es[i as int].size);

        // The header bytes (and any gap) preceding this entry's data.
        copy_bytes(archive, cursor, e_offset - cursor, &mut headers_acc);
        proof {
            assert(headers_acc@ =~= gaps_upto(a, es, i + 1 as int));
        }
        cursor = e_offset;

        if classified[i].deflate {
            let missing: bool = i >= decoded.len();
            if missing {
                proof {
                    assert(decoded_at(dec, i as int) is None);
                    assert(!decodes_ok(es, dec));
                    assert(0 <= i as int <= es.len() && store@ == store_after(
                        s0,
                        writes_upto(a, es, dec, hash_names, i as int),
                    ));
                    assert(exists|k: int|
                        0 <= k <= es.len() && store@ == #[trigger] store_after(
                            s0,
                            writes_upto(a, es, dec, hash_names, k),
                        ));
                }
                return Result::Err(Error::PreflateError);
            }
            match &decoded[i] {
                Option::None => {
                    proof {
                        assert(decoded_at(dec, i as int) is None);
                        assert(!decodes_ok(es, dec));
                        assert(0 <= i as int <= es.len() && store@ == store_after(
                            s0,
                            writes_upto(a, es, dec, hash_names, i as int),
                        ));
                        assert(exists|k: int|
                            0 <= k <= es.len() && store@ == #[trigger] store_after(
                                s0,
                                writes_upto(a, es, dec, hash_names, k),
                            ));
                    }
                    return Result::Err(Error::PreflateError);
                },
                Option::Some(pair) => {
                    proof {
                        assert(decoded_at(dec, i as int) == Option::Some((pair.0@, pair.1@)));
                    }
                    let ghost ew = entry_writes(a, es[i as int], decoded_at(dec, i as int), hash_names);

                    // The codec diff blob.
                    let diff_name = if hash_names {
                        digest_string(&pair.0)
                    } else {
                        let mut dn = classified[i].name.clone();
                        dn.append(".preflate");
                        dn
                    };
                    let mut diff_copy: Vec<u8> = Vec::new();
                    copy_bytes(&pair.0, 0, pair.0.len(), &mut diff_copy);
                    proof {
                        assert(diff_copy@ =~= pair.0@);
                    }
                    let diff_name_copy = diff_name.clone();
                    store.insert_if_absent(diff_name, diff_copy);

                    // The unpacked data blob.
                    let data_name = if hash_names {
                        digest_string(&pair.1)
                    } else {
                        classified[i].name.clone()
                    };
                    let mut data_copy: Vec<u8> = Vec::new();
                    copy_bytes(&pair.1, 0, pair.1.len(), &mut data_copy);
                    proof {
                        assert(data_copy@ =~= pair.1@);
                        lemma_store_after_small(
                            store_after(s0, writes_upto(a, es, dec, hash_names, i as int)),
                            ew,
                        );
                    }
                    let data_name_copy = data_name.clone();
                    store.insert_if_absent(data_name, data_copy);

                    // The cache key: the digest of the original compressed bytes.
                    let content_hash = if hash_names {
                        let mut comp: Vec<u8> = Vec::new();
                        copy_bytes(archive, cursor, e_size, &mut comp);
                        proof {
                            assert(comp@ =~= comp_bytes(a, es[i as int]));
                        }
                        Option::Some(digest_string(&comp))
                    } else {
                        Option::None
                    };
                    files.push(
                        ReinsertInfo {
                            offset: e_offset_u,
                            data: data_name_copy,
                            diff: Option::Some(diff_name_copy),
                            hash: content_hash,
                        },
                    );
                    proof {
                        assert(files@.last()@ == record_spec(
                            a,
                            es[i as int],
                            decoded_at(dec, i as int),
                            hash_names,
                        ));
                    }
                },
            }
        } else {
            let ghost ew = entry_writes(a, es[i as int], decoded_at(dec, i as int), hash_names);
            let mut comp: Vec<u8> = Vec::new();
            copy_bytes(archive, cursor, e_size, &mut comp);
            proof {
                assert(comp@ =~= comp_bytes(a, es[i as int]));
                lemma_store_after_small(
                    store_after(s0, writes_upto(a, es, dec, hash_names, i as int)),
                    ew,
                );
            }
            let data_name = if hash_names {
                digest_string(&comp)
            } else {
                classified[i].name.clone()
            };
            let data_name_copy = data_name.clone();
            store.insert_if_absent(data_name, comp);
            files.push(
                ReinsertInfo {
                    offset: e_offset_u,
                    data: data_name_copy,
                    diff: Option::None,
                    hash: Option::None,
                },
            );
            proof {
                assert(files@.last()@ == record_spec(
                    a,
                    es[i as int],
                    decoded_at(dec, i as int),
                    hash_names,
                ));
            }
        }
        cursor = cursor + e_size;
        i = i + 1;
    }

    // The central directory and trailer.
    proof {
        lemma_gaps_upto_len(a, es, n as int);
    }
    copy_bytes(archive, cursor, alen - cursor, &mut headers_acc);
    proof {
        assert(headers_acc@ =~= headers_of(a, es));
    }

    let headers_blob_name = if hash_names {
        digest_string(&headers_acc)
    } else {
        let mut hn = archive_name.clone();
        hn.append(".headers");
        hn
    };
    let headers_name_copy = headers_blob_name.clone();
    proof {
        crate::store::lemma_store_after_app(
            s0,
            writes_upto(a, es, dec, hash_names, n as int),
            seq![(headers_name(a, es, archive_name@, hash_names), headers_of(a, es))],
        );
        lemma_store_after_small(
            store_after(s0, writes_upto(a, es, dec, hash_names, n as int)),
            seq![(headers_name(a, es, archive_name@, hash_names), headers_of(a, es))],
        );
    }
    store.insert_if_absent(headers_blob_name, headers_acc);

    let result = RebuildInfo {
        original_filename: archive_name.clone(),
        headers: headers_name_copy,
        files,
    };
    proof {
        assert(result@.files =~= records_of(a, es, dec, hash_names));
        assert(result@ == manifest_spec(a, es, dec, archive_name@, hash_names));
    }
    Result::Ok(result)
}

} // verus!
