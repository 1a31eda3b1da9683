//! The pipeline's laws, proved over the dump and rebuild models: the
//! round-trip identity, idempotence of blob writes, cross-archive
//! deduplication, cache transparency, offset monotonicity and length
//! accounting, and the directories-only case.
use vstd::prelude::*;

use crate::archive::{classify_spec, entries_wf, keep_files, EntrySpec};
use crate::digest::digest_of;
use crate::dump::{
    comp_bytes, decoded_at, decodes_ok, dump_writes, end_before, entry_writes, gaps_upto,
    headers_name, headers_of, manifest_spec, raw_data_name, record_spec, records_of, total_size,
    writes_upto,
};
use crate::rebuild::{init_state, rebuild_spec, rebuild_upto, reenc_at, step_spec};
use crate::store::{store_after, write_blob};
use crate::ReinsertSpec;

verus! {

/// The re-encode results equal the entries' original compressed bytes: the
/// codec's decode/encode pair is a true inverse on this archive.
pub open spec fn renc_ok(renc: Seq<Option<Seq<u8>>>, a: Seq<u8>, es: Seq<EntrySpec>) -> bool {
    forall|i: int|
        0 <= i < es.len() && es[i].deflate ==> #[trigger] reenc_at(renc, i) == Option::Some(
            comp_bytes(a, es[i]),
        )
}

/// Every raw entry's blob is stored under its dump name with its bytes.
pub open spec fn raw_blobs_present(
    sm: Map<Seq<char>, Seq<u8>>,
    a: Seq<u8>,
    es: Seq<EntrySpec>,
    hash: bool,
) -> bool {
    forall|i: int|
        0 <= i < es.len() && !es[i].deflate ==> sm.contains_key(
            #[trigger] raw_data_name(a, es[i], hash),
        ) && sm[raw_data_name(a, es[i], hash)] == comp_bytes(a, es[i])
}

/// Whatever the cache holds under an entry's digest is that entry's original
/// compressed bytes: the cache was populated honestly.
pub open spec fn cache_ok(
    cm: Map<Seq<char>, Seq<u8>>,
    a: Seq<u8>,
    es: Seq<EntrySpec>,
    hash: bool,
) -> bool {
    hash ==> forall|i: int|
        0 <= i < es.len() && es[i].deflate && cm.contains_key(
            #[trigger] digest_of(comp_bytes(a, es[i])),
        ) ==> cm[digest_of(comp_bytes(a, es[i]))] == comp_bytes(a, es[i])
}

/// The digest separates this archive's entries: entries whose compressed
/// bytes differ carry different digests (collision resistance, instantiated).
pub open spec fn digests_separate(a: Seq<u8>, es: Seq<EntrySpec>) -> bool {
    forall|i: int, j: int|
        0 <= i < es.len() && 0 <= j < es.len() && es[i].deflate && es[j].deflate && digest_of(
            #[trigger] comp_bytes(a, es[i]),
        ) == digest_of(#[trigger] comp_bytes(a, es[j])) ==> comp_bytes(a, es[i]) == comp_bytes(
            a,
            es[j],
        )
}

/// A shorter header prefix is a prefix of a longer one.
proof fn lemma_gaps_prefix(a: Seq<u8>, es: Seq<EntrySpec>, i: int, j: int)
    requires
        0 <= i <= j,
    ensures
        gaps_upto(a, es, i).len() <= gaps_upto(a, es, j).len(),
        gaps_upto(a, es, j).take(gaps_upto(a, es, i).len() as int) == gaps_upto(a, es, i),
    decreases j - i,
{
    if j > i {
        lemma_gaps_prefix(a, es, i, j - 1);
        assert(gaps_upto(a, es, j).take(gaps_upto(a, es, i).len() as int) =~= gaps_upto(
            a,
            es,
            i,
        ));
    } else {
        assert(gaps_upto(a, es, j).take(gaps_upto(a, es, i).len() as int) =~= gaps_upto(
            a,
            es,
            i,
        ));
    }
}

/// After `i` records, the rebuild has reproduced the archive up to the end
/// of entry `i - 1`'s data, has consumed exactly the header bytes gathered
/// before entry `i`, and its cache is still honest.
proof fn lemma_rebuild_prefix(
    a: Seq<u8>,
    es: Seq<EntrySpec>,
    dec: Seq<Option<(Seq<u8>, Seq<u8>)>>,
    hash: bool,
    renc: Seq<Option<Seq<u8>>>,
    sm: Map<Seq<char>, Seq<u8>>,
    cm0: Map<Seq<char>, Seq<u8>>,
    on: bool,
    i: int,
)
    requires
        entries_wf(es, a.len() as int),
        decodes_ok(es, dec),
        renc_ok(renc, a, es),
        raw_blobs_present(sm, a, es, hash),
        cache_ok(cm0, a, es, hash),
        digests_separate(a, es),
        0 <= i <= es.len(),
    ensures
        ({
            let st_r = rebuild_upto(
                records_of(a, es, dec, hash),
                renc,
                sm,
                init_state(headers_of(a, es), cm0),
                on,
                i,
            );
            st_r matches Result::Ok(st) && st.out == a.take(end_before(es, i)) && st.hrem
                == headers_of(a, es).skip(gaps_upto(a, es, i).len() as int) && cache_ok(
                st.cache,
                a,
                es,
                hash,
            )
        }),
    decreases i,
{
    let files = records_of(a, es, dec, hash);
    let h = headers_of(a, es);
    let st0 = init_state(h, cm0);
    let n = es.len() as int;
    crate::dump::lemma_gaps_upto_len(a, es, i);
    if i == 0 {
        assert(a.take(0) =~= Seq::<u8>::empty());
        assert(h.skip(0) =~= h);
    } else {
        lemma_rebuild_prefix(a, es, dec, hash, renc, sm, cm0, on, i - 1);
        let st = rebuild_upto(files, renc, sm, st0, on, i - 1)->Ok_0;
        let e = es[i - 1];
        let rec = files[i - 1];
        assert(rec == record_spec(a, e, decoded_at(dec, i - 1), hash));
        crate::dump::lemma_gaps_upto_len(a, es, i - 1);
        lemma_gaps_prefix(a, es, i - 1, i);
        lemma_gaps_prefix(a, es, i, n);

        let hq0 = gaps_upto(a, es, i - 1).len() as int;
        let hq1 = gaps_upto(a, es, i).len() as int;
        let p0 = end_before(es, i - 1);
        let need = e.offset - p0;
        assert(st.out.len() == p0);
        assert(rec.offset == e.offset);
        assert(need >= 0);

        // The pending header bytes begin with exactly this entry's gap.
        assert(gaps_upto(a, es, i) == gaps_upto(a, es, i - 1) + a.subrange(p0, e.offset));
        assert(hq1 - hq0 == need);
        assert(hq1 <= gaps_upto(a, es, n).len());
        assert(st.hrem.len() == h.len() - hq0);
        assert(need <= st.hrem.len());
        assert(st.hrem.take(need) =~= h.subrange(hq0, hq1));
        assert(h.subrange(hq0, hq1) =~= gaps_upto(a, es, n).subrange(hq0, hq1));
        assert(gaps_upto(a, es, n).subrange(hq0, hq1) =~= gaps_upto(a, es, i).subrange(hq0, hq1));
        assert(gaps_upto(a, es, i).subrange(hq0, hq1) =~= a.subrange(p0, e.offset));
        assert(st.out + st.hrem.take(need) =~= a.take(e.offset));
        assert(st.hrem.skip(need) =~= h.skip(hq1));

        let comp = comp_bytes(a, e);
        assert(a.take(e.offset) + comp =~= a.take(end_before(es, i)));

        if !e.deflate {
            assert(rec.diff is None);
            assert(sm.contains_key(rec.data) && sm[rec.data] == comp);
            assert(step_spec(st, rec, reenc_at(renc, i - 1), sm, on) matches Result::Ok(st2)
                && st2.out == a.take(end_before(es, i)) && st2.hrem == h.skip(hq1) && st2.cache
                == st.cache);
        } else {
            assert(rec.diff is Some);
            assert(reenc_at(renc, i - 1) == Option::Some(comp));
            if on && rec.hash is Some && st.cache.contains_key(rec.hash->Some_0) {
                assert(hash);
                assert(rec.hash->Some_0 == digest_of(comp));
                assert(st.cache[rec.hash->Some_0] == comp);
            } else {
                if on && rec.hash is Some {
                    // The insert under this entry's digest keeps the cache
                    // honest: colliding digests mean equal bytes.
                    let cm2 = st.cache.insert(digest_of(comp), comp);
                    assert forall|j: int|
                        0 <= j < es.len() && es[j].deflate && cm2.contains_key(
                            #[trigger] digest_of(comp_bytes(a, es[j])),
                        ) implies cm2[digest_of(comp_bytes(a, es[j]))] == comp_bytes(
                        a,
                        es[j],
                    ) by {
                        if digest_of(comp_bytes(a, es[j])) == digest_of(comp) {
                            assert(comp_bytes(a, es[j]) == comp);
                        }
                    }
                }
            }
        }
    }
}

/// Round-trip identity: a manifest produced by the dump model, replayed by
/// the rebuild model against a store holding the dumped blobs, re-encode
/// results that invert the decode, and an honestly populated (or empty)
/// cache, reproduces the original archive byte for byte.
pub proof fn lemma_round_trip(
    a: Seq<u8>,
    es: Seq<EntrySpec>,
    dec: Seq<Option<(Seq<u8>, Seq<u8>)>>,
    base: Seq<char>,
    hash: bool,
    renc: Seq<Option<Seq<u8>>>,
    sm: Map<Seq<char>, Seq<u8>>,
    cm0: Map<Seq<char>, Seq<u8>>,
    on: bool,
)
    requires
        entries_wf(es, a.len() as int),
        decodes_ok(es, dec),
        renc_ok(renc, a, es),
        raw_blobs_present(sm, a, es, hash),
        cache_ok(cm0, a, es, hash),
        digests_separate(a, es),
    ensures
        rebuild_spec(
            manifest_spec(a, es, dec, base, hash),
            headers_of(a, es),
            sm,
            cm0,
            renc,
            on,
        ) matches Result::Ok(p) && p.0 == a,
{
    let n = es.len() as int;
    lemma_rebuild_prefix(a, es, dec, hash, renc, sm, cm0, on, n);
    crate::dump::lemma_gaps_upto_len(a, es, n);
    let st = rebuild_upto(
        records_of(a, es, dec, hash),
        renc,
        sm,
        init_state(headers_of(a, es), cm0),
        on,
        n,
    )->Ok_0;
    assert(manifest_spec(a, es, dec, base, hash).files == records_of(a, es, dec, hash));
    assert(manifest_spec(a, es, dec, base, hash).files.len() == n);
    assert(headers_of(a, es).skip(gaps_upto(a, es, n).len() as int) =~= a.subrange(
        end_before(es, n),
        a.len() as int,
    ));
    assert(st.out + st.hrem =~= a);
}

/// No two writes put different bytes under one name.
pub open spec fn writes_consistent(ws: Seq<(Seq<char>, Seq<u8>)>) -> bool {
    forall|i: int, j: int|
        0 <= i < ws.len() && 0 <= j < ws.len() && (#[trigger] ws[i]).0 == (#[trigger] ws[j]).0
            ==> ws[i].1 == ws[j].1
}

/// Whatever the store already holds under a written name is the written
/// bytes (a fresh store holds nothing, so satisfies this trivially).
pub open spec fn store_compat(m: Map<Seq<char>, Seq<u8>>, ws: Seq<(Seq<char>, Seq<u8>)>) -> bool {
    forall|i: int|
        0 <= i < ws.len() && m.contains_key((#[trigger] ws[i]).0) ==> m[ws[i].0] == ws[i].1
}

/// Every binding of the written store either survives from the original
/// store or comes from one of the writes; written names are all bound.
proof fn lemma_store_after_source(m: Map<Seq<char>, Seq<u8>>, ws: Seq<(Seq<char>, Seq<u8>)>)
    ensures
        forall|x: Seq<char>|
            m.contains_key(x) ==> #[trigger] store_after(m, ws).contains_key(x),
        forall|x: Seq<char>|
            #[trigger] store_after(m, ws).contains_key(x) ==> ((m.contains_key(x) && store_after(
                m,
                ws,
            )[x] == m[x]) || exists|k: int|
                0 <= k < ws.len() && (#[trigger] ws[k]).0 == x && store_after(m, ws)[x] == ws[k].1),
        forall|k: int|
            0 <= k < ws.len() ==> store_after(m, ws).contains_key((#[trigger] ws[k]).0),
    decreases ws.len(),
{
    if ws.len() > 0 {
        let dl = ws.drop_last();
        lemma_store_after_source(m, dl);
        assert(forall|k: int| 0 <= k < dl.len() ==> dl[k] == ws[k]);
        let m1 = store_after(m, dl);
        assert(store_after(m, ws) == write_blob(m1, ws.last().0, ws.last().1));
        assert forall|x: Seq<char>| #[trigger]
            store_after(m, ws).contains_key(x) implies ((m.contains_key(x) && store_after(m, ws)[x]
            == m[x]) || exists|k: int|
            0 <= k < ws.len() && (#[trigger] ws[k]).0 == x && store_after(m, ws)[x]
                == ws[k].1) by {
            if x == ws.last().0 && !m1.contains_key(x) {
                assert(ws[ws.len() - 1].0 == x && store_after(m, ws)[x] == ws[ws.len() - 1].1);
            } else {
                assert(m1.contains_key(x) && store_after(m, ws)[x] == m1[x]);
                if !(m.contains_key(x) && m1[x] == m[x]) {
                    let k = choose|k: int|
                        0 <= k < dl.len() && (#[trigger] dl[k]).0 == x && m1[x] == dl[k].1;
                    assert(ws[k].0 == x && store_after(m, ws)[x] == ws[k].1);
                }
            }
        }
    }
}

/// Under consistent writes against a compatible store, every write ends up
/// readable: the written store binds each written name to its bytes.
proof fn lemma_store_covers(m: Map<Seq<char>, Seq<u8>>, ws: Seq<(Seq<char>, Seq<u8>)>)
    requires
        writes_consistent(ws),
        store_compat(m, ws),
    ensures
        forall|k: int|
            0 <= k < ws.len() ==> store_after(m, ws).contains_key((#[trigger] ws[k]).0)
                && store_after(m, ws)[ws[k].0] == ws[k].1,
{
    lemma_store_after_source(m, ws);
    assert forall|k: int| 0 <= k < ws.len() implies store_after(m, ws).contains_key(
        (#[trigger] ws[k]).0,
    ) && store_after(m, ws)[ws[k].0] == ws[k].1 by {
        let x = ws[k].0;
        if !(m.contains_key(x) && store_after(m, ws)[x] == m[x]) {
            let j = choose|j: int|
                0 <= j < ws.len() && (#[trigger] ws[j]).0 == x && store_after(m, ws)[x] == ws[j].1;
            assert(ws[j].1 == ws[k].1);
        }
    }
}

/// Each entry's writes sit inside the write list of any longer prefix.
proof fn lemma_writes_upto_elem(
    a: Seq<u8>,
    es: Seq<EntrySpec>,
    dec: Seq<Option<(Seq<u8>, Seq<u8>)>>,
    hash: bool,
    i: int,
    j: int,
    t: int,
)
    requires
        0 <= i < j,
        0 <= t < entry_writes(a, es[i], decoded_at(dec, i), hash).len(),
    ensures
        ({
            let ws = writes_upto(a, es, dec, hash, j);
            let ew = entry_writes(a, es[i], decoded_at(dec, i), hash);
            let base = writes_upto(a, es, dec, hash, i).len() as int;
            base + t < ws.len() && ws[base + t] == ew[t]
        }),
    decreases j,
{
    let ew = entry_writes(a, es[i], decoded_at(dec, i), hash);
    let base = writes_upto(a, es, dec, hash, i).len() as int;
    if j == i + 1 {
        let w0 = writes_upto(a, es, dec, hash, i);
        assert(writes_upto(a, es, dec, hash, j) == w0 + ew);
        assert(base + t < (w0 + ew).len() && (w0 + ew)[base + t] == ew[t]);
    } else {
        lemma_writes_upto_elem(a, es, dec, hash, i, j - 1, t);
        let wprev = writes_upto(a, es, dec, hash, j - 1);
        let ewj = entry_writes(a, es[j - 1], decoded_at(dec, j - 1), hash);
        assert(writes_upto(a, es, dec, hash, j) == wprev + ewj);
        assert(base + t < wprev.len() && wprev[base + t] == ew[t]);
        assert((wprev + ewj)[base + t] == ew[t]);
    }
}

/// The store a dump leaves behind serves a rebuild: it binds the headers
/// blob and every raw entry's blob to the bytes the dump externalized.
pub proof fn lemma_dump_store_serves(
    s0: Map<Seq<char>, Seq<u8>>,
    a: Seq<u8>,
    es: Seq<EntrySpec>,
    dec: Seq<Option<(Seq<u8>, Seq<u8>)>>,
    base: Seq<char>,
    hash: bool,
)
    requires
        writes_consistent(dump_writes(a, es, dec, base, hash)),
        store_compat(s0, dump_writes(a, es, dec, base, hash)),
    ensures
        ({
            let sm = store_after(s0, dump_writes(a, es, dec, base, hash));
            raw_blobs_present(sm, a, es, hash) && sm.contains_key(headers_name(a, es, base, hash))
                && sm[headers_name(a, es, base, hash)] == headers_of(a, es)
        }),
{
    let n = es.len() as int;
    let dw = dump_writes(a, es, dec, base, hash);
    let wu = writes_upto(a, es, dec, hash, n);
    lemma_store_covers(s0, dw);
    assert(dw[dw.len() - 1] == (headers_name(a, es, base, hash), headers_of(a, es)));
    assert forall|i: int| 0 <= i < es.len() && !es[i].deflate implies store_after(
        s0,
        dw,
    ).contains_key(#[trigger] raw_data_name(a, es[i], hash)) && store_after(s0, dw)[raw_data_name(
        a,
        es[i],
        hash,
    )] == comp_bytes(a, es[i]) by {
        lemma_writes_upto_elem(a, es, dec, hash, i, n, 0);
        let base_i = writes_upto(a, es, dec, hash, i).len() as int;
        let ew = entry_writes(a, es[i], decoded_at(dec, i), hash);
        assert(ew[0] == (raw_data_name(a, es[i], hash), comp_bytes(a, es[i])));
        assert(wu[base_i] == ew[0]);
        assert(dw[base_i] == ew[0]);
    }
}

/// Round-trip identity over the store: replaying the manifest a dump
/// produced, against the store the dump wrote, re-encode results that invert
/// the decode, and an honestly populated (or empty) cache, reproduces the
/// original archive byte for byte.
pub proof fn lemma_round_trip_from_store(
    s0: Map<Seq<char>, Seq<u8>>,
    a: Seq<u8>,
    es: Seq<EntrySpec>,
    dec: Seq<Option<(Seq<u8>, Seq<u8>)>>,
    base: Seq<char>,
    hash: bool,
    renc: Seq<Option<Seq<u8>>>,
    cm0: Map<Seq<char>, Seq<u8>>,
    on: bool,
)
    requires
        entries_wf(es, a.len() as int),
        decodes_ok(es, dec),
        renc_ok(renc, a, es),
        cache_ok(cm0, a, es, hash),
        digests_separate(a, es),
        writes_consistent(dump_writes(a, es, dec, base, hash)),
        store_compat(s0, dump_writes(a, es, dec, base, hash)),
    ensures
        ({
            let sm = store_after(s0, dump_writes(a, es, dec, base, hash));
            let m = manifest_spec(a, es, dec, base, hash);
            sm.contains_key(m.headers) && sm[m.headers] == headers_of(a, es) && (rebuild_spec(
                m,
                sm[m.headers],
                sm,
                cm0,
                renc,
                on,
            ) matches Result::Ok(p) && p.0 == a)
        }),
{
    lemma_dump_store_serves(s0, a, es, dec, base, hash);
    let sm = store_after(s0, dump_writes(a, es, dec, base, hash));
    lemma_round_trip(a, es, dec, base, hash, renc, sm, cm0, on);
}

/// A store already holding every written name is left unchanged.
proof fn lemma_store_after_stable(m: Map<Seq<char>, Seq<u8>>, ws: Seq<(Seq<char>, Seq<u8>)>)
    requires
        forall|k: int| 0 <= k < ws.len() ==> m.contains_key((#[trigger] ws[k]).0),
    ensures
        store_after(m, ws) == m,
    decreases ws.len(),
{
    if ws.len() > 0 {
        let dl = ws.drop_last();
        assert(forall|k: int| 0 <= k < dl.len() ==> dl[k] == ws[k]);
        lemma_store_after_stable(m, dl);
    }
}

/// Idempotent blob writes: dumping the same archive into the same store a
/// second time writes nothing — every blob name is already bound — and the
/// manifest, a function of the archive and decode results alone, is the
/// same. Dumping twice is dumping once.
pub proof fn lemma_dump_idempotent(
    s0: Map<Seq<char>, Seq<u8>>,
    a: Seq<u8>,
    es: Seq<EntrySpec>,
    dec: Seq<Option<(Seq<u8>, Seq<u8>)>>,
    base: Seq<char>,
    hash: bool,
)
    ensures
        store_after(
            store_after(s0, dump_writes(a, es, dec, base, hash)),
            dump_writes(a, es, dec, base, hash),
        ) == store_after(s0, dump_writes(a, es, dec, base, hash)),
{
    let dw = dump_writes(a, es, dec, base, hash);
    lemma_store_after_source(s0, dw);
    lemma_store_after_stable(store_after(s0, dw), dw);
}

/// Cross-archive deduplication: entries of two archives with identical
/// compressed bytes and identical decode results get identical blob names
/// under content-addressed naming, so both manifests reference the same
/// blobs, and the store — a map from name to bytes — holds that content
/// once.
pub proof fn lemma_cross_archive_dedup(
    a1: Seq<u8>,
    e1: EntrySpec,
    d1: Option<(Seq<u8>, Seq<u8>)>,
    a2: Seq<u8>,
    e2: EntrySpec,
    d2: Option<(Seq<u8>, Seq<u8>)>,
)
    requires
        e1.deflate == e2.deflate,
        comp_bytes(a1, e1) == comp_bytes(a2, e2),
        e1.deflate ==> d1 == d2 && d1 is Some,
    ensures
        record_spec(a1, e1, d1, true).data == record_spec(a2, e2, d2, true).data,
        record_spec(a1, e1, d1, true).diff == record_spec(a2, e2, d2, true).diff,
        record_spec(a1, e1, d1, true).hash == record_spec(a2, e2, d2, true).hash,
{
}

/// The cache is honest with respect to a manifest and its re-encode
/// results: whatever it holds under a record's digest is that record's
/// re-encode result. An empty cache is trivially honest; a rebuild only
/// adds honest entries.
pub open spec fn cache_consistent(
    files: Seq<ReinsertSpec>,
    renc: Seq<Option<Seq<u8>>>,
    cm: Map<Seq<char>, Seq<u8>>,
) -> bool {
    forall|i: int|
        0 <= i < files.len() && (#[trigger] files[i]).diff is Some && files[i].hash is Some
            && cm.contains_key(files[i].hash->Some_0) ==> reenc_at(renc, i) == Option::Some(
            cm[files[i].hash->Some_0],
        )
}

/// Records sharing a digest share a re-encode result (the codec is
/// deterministic and equal digests name equal blobs).
pub open spec fn renc_coherent(files: Seq<ReinsertSpec>, renc: Seq<Option<Seq<u8>>>) -> bool {
    forall|i: int, j: int|
        0 <= i < files.len() && 0 <= j < files.len() && (#[trigger] files[i]).diff is Some && (
        #[trigger] files[j]).diff is Some && files[i].hash is Some && files[i].hash
            == files[j].hash ==> reenc_at(renc, i) == reenc_at(renc, j)
}

/// Two replays that differ only in their (honest) caches and cache flags
/// write the same bytes, fail alike, and keep their caches honest.
proof fn lemma_cache_transparent_prefix(
    files: Seq<ReinsertSpec>,
    renc: Seq<Option<Seq<u8>>>,
    sm: Map<Seq<char>, Seq<u8>>,
    h: Seq<u8>,
    cm1: Map<Seq<char>, Seq<u8>>,
    cm2: Map<Seq<char>, Seq<u8>>,
    on1: bool,
    on2: bool,
    i: int,
)
    requires
        cache_consistent(files, renc, cm1),
        cache_consistent(files, renc, cm2),
        renc_coherent(files, renc),
        0 <= i <= files.len(),
    ensures
        ({
            let r1 = rebuild_upto(files, renc, sm, init_state(h, cm1), on1, i);
            let r2 = rebuild_upto(files, renc, sm, init_state(h, cm2), on2, i);
            &&& r1 is Ok <==> r2 is Ok
            &&& r1 is Ok ==> (r1->Ok_0.out == r2->Ok_0.out && r1->Ok_0.hrem == r2->Ok_0.hrem
                && cache_consistent(files, renc, r1->Ok_0.cache) && cache_consistent(
                files,
                renc,
                r2->Ok_0.cache,
            ))
            &&& r1 is Err ==> r1 == r2
        }),
    decreases i,
{
    if i > 0 {
        lemma_cache_transparent_prefix(files, renc, sm, h, cm1, cm2, on1, on2, i - 1);
        let r1p = rebuild_upto(files, renc, sm, init_state(h, cm1), on1, i - 1);
        let r2p = rebuild_upto(files, renc, sm, init_state(h, cm2), on2, i - 1);
        if r1p is Ok {
            let s1 = r1p->Ok_0;
            let s2 = r2p->Ok_0;
            let rec = files[i - 1];
            let ri = reenc_at(renc, i - 1);
            if rec.diff is Some && !(rec.offset - s1.out.len() < 0 || rec.offset - s1.out.len()
                > s1.hrem.len()) {
                if ri is Some {
                    let v = ri->Some_0;
                    if on1 && rec.hash is Some && s1.cache.contains_key(rec.hash->Some_0) {
                        assert(s1.cache[rec.hash->Some_0] == v);
                    }
                    if on2 && rec.hash is Some && s2.cache.contains_key(rec.hash->Some_0) {
                        assert(s2.cache[rec.hash->Some_0] == v);
                    }
                    if rec.hash is Some {
                        // An insert under this record's digest stays honest:
                        // records sharing the digest share the result.
                        let c1n = s1.cache.insert(rec.hash->Some_0, v);
                        let c2n = s2.cache.insert(rec.hash->Some_0, v);
                        assert forall|j: int|
                            0 <= j < files.len() && (#[trigger] files[j]).diff is Some
                                && files[j].hash is Some && c1n.contains_key(
                                files[j].hash->Some_0,
                            ) implies reenc_at(renc, j) == Option::Some(
                            c1n[files[j].hash->Some_0],
                        ) by {
                            if files[j].hash->Some_0 == rec.hash->Some_0 {
                                assert(reenc_at(renc, j) == reenc_at(renc, i - 1));
                            }
                        }
                        assert forall|j: int|
                            0 <= j < files.len() && (#[trigger] files[j]).diff is Some
                                && files[j].hash is Some && c2n.contains_key(
                                files[j].hash->Some_0,
                            ) implies reenc_at(renc, j) == Option::Some(
                            c2n[files[j].hash->Some_0],
                        ) by {
                            if files[j].hash->Some_0 == rec.hash->Some_0 {
                                assert(reenc_at(renc, j) == reenc_at(renc, i - 1));
                            }
                        }
                    }
                }
            }
        }
    }
}

/// Cache correctness: rebuilding with an honestly populated cache produces
/// output identical to rebuilding with an empty cache (and to rebuilding
/// with caching off entirely); the cache is a pure optimization.
pub proof fn lemma_cache_immaterial(
    m: crate::RebuildSpec,
    h: Seq<u8>,
    sm: Map<Seq<char>, Seq<u8>>,
    cm: Map<Seq<char>, Seq<u8>>,
    renc: Seq<Option<Seq<u8>>>,
    on1: bool,
    on2: bool,
)
    requires
        cache_consistent(m.files, renc, cm),
        renc_coherent(m.files, renc),
    ensures
        ({
            let r1 = rebuild_spec(m, h, sm, cm, renc, on1);
            let r2 = rebuild_spec(m, h, sm, Map::empty(), renc, on2);
            &&& r1 is Ok <==> r2 is Ok
            &&& r1 is Ok ==> r1->Ok_0.0 == r2->Ok_0.0
            &&& r1 is Err ==> r1->Err_0 == r2->Err_0
        }),
{
    assert(cache_consistent(m.files, renc, Map::<Seq<char>, Seq<u8>>::empty()));
    lemma_cache_transparent_prefix(
        m.files,
        renc,
        sm,
        h,
        cm,
        Map::empty(),
        on1,
        on2,
        m.files.len() as int,
    );
}

/// Offset monotonicity and length accounting: a produced manifest's offsets
/// never decrease, and the header bytes plus the entries' compressed sizes
/// add up to the archive's length.
pub proof fn lemma_offsets_and_length(
    a: Seq<u8>,
    es: Seq<EntrySpec>,
    dec: Seq<Option<(Seq<u8>, Seq<u8>)>>,
    hash: bool,
)
    requires
        entries_wf(es, a.len() as int),
    ensures
        ({
            let files = records_of(a, es, dec, hash);
            forall|i: int|
                0 <= i < files.len() - 1 ==> (#[trigger] files[i]).offset <= files[i + 1].offset
        }),
        headers_of(a, es).len() + total_size(es, es.len() as int) == a.len(),
{
    crate::dump::lemma_gaps_upto_len(a, es, es.len() as int);
}

/// Directory entries dropped: an archive whose table holds only directory
/// entries classifies to no entries at all, so its manifest lists no files
/// and its headers blob is the whole archive.
pub proof fn lemma_directories_only(
    a: Seq<u8>,
    raw_entries: Seq<EntrySpec>,
    dec: Seq<Option<(Seq<u8>, Seq<u8>)>>,
    base: Seq<char>,
    hash: bool,
)
    requires
        forall|i: int| 0 <= i < raw_entries.len() ==> (#[trigger] raw_entries[i]).is_dir,
    ensures
        classify_spec(raw_entries) == Seq::<EntrySpec>::empty(),
        manifest_spec(a, classify_spec(raw_entries), dec, base, hash).files == Seq::<
            ReinsertSpec,
        >::empty(),
        headers_of(a, classify_spec(raw_entries)) == a,
        entries_wf(classify_spec(raw_entries), a.len() as int),
    decreases raw_entries.len(),
{
    if raw_entries.len() == 0 {
        assert(keep_files(raw_entries) == Seq::<EntrySpec>::empty());
    } else {
        let dl = raw_entries.drop_last();
        assert(forall|i: int| 0 <= i < dl.len() ==> (#[trigger] dl[i]).is_dir);
        lemma_directories_only(a, dl, dec, base, hash);
        assert(keep_files(raw_entries) == keep_files(dl));
        assert(classify_spec(raw_entries) == classify_spec(dl));
    }
    assert(records_of(a, classify_spec(raw_entries), dec, hash) =~= Seq::<ReinsertSpec>::empty());
    assert(headers_of(a, classify_spec(raw_entries)) =~= a);
}

} // verus!
