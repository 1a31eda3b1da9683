//! The rebuild engine: the dump's inverse. Replays the manifest's records in
//! order, interleaving header-blob bytes with each entry's reinsertable
//! bytes, and appends the remaining header bytes (the central directory and
//! trailer), reproducing the original archive byte for byte.
//!
//! The codec is an external collaborator: the caller re-encodes each codec
//! record's `(diff, unpacked)` blobs and hands the results in, one per
//! record, aligned by index (records served from the recompression cache
//! need none).
use vstd::prelude::*;

use crate::shared::copy_bytes;
use crate::store::BlobStore;
use crate::{Error, RebuildInfo, RebuildSpec, ReinsertSpec};

verus! {

/// The evolving state of a rebuild: the output written so far, the header
/// bytes not yet consumed, and the recompression cache.
pub ghost struct RebuildState {
    pub out: Seq<u8>,
    pub hrem: Seq<u8>,
    pub cache: Map<Seq<char>, Seq<u8>>,
}

/// The re-encode result supplied for record `i`; absent entries count as
/// failed.
pub open spec fn reenc_at(renc: Seq<Option<Seq<u8>>>, i: int) -> Option<Seq<u8>> {
    if 0 <= i < renc.len() {
        renc[i]
    } else {
        Option::None
    }
}

/// The views of the caller-supplied re-encode results.
pub open spec fn reenc_views(s: Seq<Option<Vec<u8>>>) -> Seq<Option<Seq<u8>>> {
    s.map_values(
        |o: Option<Vec<u8>>|
            match o {
                Option::None => Option::<Seq<u8>>::None,
                Option::Some(v) => Option::Some(v@),
            },
    )
}

/// Replays one record: copies the header bytes leading up to the record's
/// offset, then emits the record's reinsertable bytes — the data blob
/// verbatim for a raw record; for a codec record, the cached bytes under its
/// digest on a cache hit, else the supplied re-encode result, which then
/// populates the cache under the digest.
pub open spec fn step_spec(
    st: RebuildState,
    rec: ReinsertSpec,
    renc_i: Option<Seq<u8>>,
    sm: Map<Seq<char>, Seq<u8>>,
    on: bool,
) -> Result<RebuildState, Error> {
    let need = rec.offset - st.out.len();
    if need < 0 || need > st.hrem.len() {
        Result::Err(Error::IoError)
    } else {
        let out1 = st.out + st.hrem.take(need);
        let hrem1 = st.hrem.skip(need);
        match rec.diff {
            Option::None => if sm.contains_key(rec.data) {
                Result::Ok(RebuildState { out: out1 + sm[rec.data], hrem: hrem1, cache: st.cache })
            } else {
                Result::Err(Error::IoError)
            },
            Option::Some(_) => {
                if on && rec.hash is Some && st.cache.contains_key(rec.hash->Some_0) {
                    Result::Ok(
                        RebuildState {
                            out: out1 + st.cache[rec.hash->Some_0],
                            hrem: hrem1,
                            cache: st.cache,
                        },
                    )
                } else {
                    match renc_i {
                        Option::None => Result::Err(Error::PreflateError),
                        Option::Some(enc) => Result::Ok(
                            RebuildState {
                                out: out1 + enc,
                                hrem: hrem1,
                                cache: if on && rec.hash is Some {
                                    st.cache.insert(rec.hash->Some_0, enc)
                                } else {
                                    st.cache
                                },
                            },
                        ),
                    }
                }
            },
        }
    }
}

/// The state after replaying the first `i` records.
pub open spec fn rebuild_upto(
    files: Seq<ReinsertSpec>,
    renc: Seq<Option<Seq<u8>>>,
    sm: Map<Seq<char>, Seq<u8>>,
    st0: RebuildState,
    on: bool,
    i: int,
) -> Result<RebuildState, Error>
    decreases i,
{
    if i <= 0 {
        Result::Ok(st0)
    } else {
        match rebuild_upto(files, renc, sm, st0, on, i - 1) {
            Result::Err(e) => Result::Err(e),
            Result::Ok(st) => step_spec(st, files[i - 1], reenc_at(renc, i - 1), sm, on),
        }
    }
}

/// A failed replay stays failed: later prefixes report the same error.
pub proof fn lemma_rebuild_upto_err(
    files: Seq<ReinsertSpec>,
    renc: Seq<Option<Seq<u8>>>,
    sm: Map<Seq<char>, Seq<u8>>,
    st0: RebuildState,
    on: bool,
    k: int,
    k2: int,
)
    requires
        0 <= k <= k2,
        rebuild_upto(files, renc, sm, st0, on, k) is Err,
    ensures
        rebuild_upto(files, renc, sm, st0, on, k2) == rebuild_upto(files, renc, sm, st0, on, k),
    decreases k2 - k,
{
    if k2 > k {
        lemma_rebuild_upto_err(files, renc, sm, st0, on, k, k2 - 1);
    }
}

/// The initial rebuild state: nothing written, all header bytes ahead.
pub open spec fn init_state(headers: Seq<u8>, cm0: Map<Seq<char>, Seq<u8>>) -> RebuildState {
    RebuildState { out: Seq::empty(), hrem: headers, cache: cm0 }
}

/// The rebuilt archive and final cache: every record replayed in manifest
/// order, then the remaining header bytes appended.
pub open spec fn rebuild_spec(
    info: RebuildSpec,
    headers: Seq<u8>,
    sm: Map<Seq<char>, Seq<u8>>,
    cm0: Map<Seq<char>, Seq<u8>>,
    renc: Seq<Option<Seq<u8>>>,
    on: bool,
) -> Result<(Seq<u8>, Map<Seq<char>, Seq<u8>>), Error> {
    match rebuild_upto(info.files, renc, sm, init_state(headers, cm0), on, info.files.len() as int) {
        Result::Err(e) => Result::Err(e),
        Result::Ok(st) => Result::Ok((st.out + st.hrem, st.cache)),
    }
}

/// What `rebuild` guarantees, relating its result and the cache's new
/// contents to the manifest, the blob store and the re-encode results.
pub open spec fn rebuild_post(
    info: RebuildSpec,
    sm: Map<Seq<char>, Seq<u8>>,
    renc: Seq<Option<Seq<u8>>>,
    cm0: Map<Seq<char>, Seq<u8>>,
    cm1: Map<Seq<char>, Seq<u8>>,
    on: bool,
    r: Result<Vec<u8>, Error>,
) -> bool {
    if !sm.contains_key(info.headers) {
        r == Result::<Vec<u8>, Error>::Err(Error::IoError) && cm1 == cm0
    } else {
        let headers = sm[info.headers];
        match rebuild_spec(info, headers, sm, cm0, renc, on) {
            Result::Ok((out, cm)) => r matches Result::Ok(v) && v@ == out && cm1 == cm,
            Result::Err(e) => r == Result::<Vec<u8>, Error>::Err(e) && exists|k: int|
                0 <= k <= info.files.len() && (#[trigger] rebuild_upto(
                    info.files,
                    renc,
                    sm,
                    init_state(headers, cm0),
                    on,
                    k,
                ) matches Result::Ok(st) && cm1 == st.cache),
        }
    }
}

/// A failing step fails the whole replay, and the cache stays as the last
/// successful prefix left it.
proof fn lemma_fail_exit(
    files: Seq<ReinsertSpec>,
    renc: Seq<Option<Seq<u8>>>,
    sm: Map<Seq<char>, Seq<u8>>,
    st0: RebuildState,
    on: bool,
    i: int,
    st: RebuildState,
    e: Error,
)
    requires
        0 <= i < files.len(),
        rebuild_upto(files, renc, sm, st0, on, i) == Result::<RebuildState, Error>::Ok(st),
        step_spec(st, files[i], reenc_at(renc, i), sm, on) == Result::<RebuildState, Error>::Err(
            e,
        ),
    ensures
        rebuild_upto(files, renc, sm, st0, on, files.len() as int) == Result::<
            RebuildState,
            Error,
        >::Err(e),
        exists|k: int|
            0 <= k <= files.len() && (#[trigger] rebuild_upto(files, renc, sm, st0, on, k) matches Result::Ok(st2)
                && st.cache == st2.cache),
{
    assert(rebuild_upto(files, renc, sm, st0, on, i + 1) == Result::<RebuildState, Error>::Err(e));
    lemma_rebuild_upto_err(files, renc, sm, st0, on, i + 1, files.len() as int);
    assert(rebuild_upto(files, renc, sm, st0, on, i) matches Result::Ok(st2) && st.cache
        == st2.cache);
    assert(exists|k: int|
        0 <= k <= files.len() && (#[trigger] rebuild_upto(files, renc, sm, st0, on, k) matches Result::Ok(st2)
            && st.cache == st2.cache));
}

/// Reassembles an archive from its manifest and blobs.
///
/// `store` must hold the headers blob and every raw record's data blob;
/// `reencoded` holds the codec collaborator's re-encode result for each
/// record, aligned by index (`None`, and any value for a raw or cache-served
/// record, is ignored except that a codec record served neither by the cache
/// nor by a result fails the rebuild). With `use_cache`, records whose
/// digest is cached are served from `cache`, and re-encoded bytes populate
/// `cache` under their record's digest.
#[verifier::rlimit(60)]
pub fn rebuild(
    info: &RebuildInfo,
    store: &BlobStore,
    reencoded: &Vec<Option<Vec<u8>>>,
    cache: &mut BlobStore,
    use_cache: bool,
) -> (r: Result<Vec<u8>, Error>)
    requires
        store.wf(),
        old(cache).wf(),
    ensures
        final(cache).wf(),
        rebuild_post(
            info@,
            store@,
            reenc_views(reencoded@),
            old(cache)@,
            final(cache)@,
            use_cache,
            r,
        ),
{
    let ghost sm = store@;
    let ghost cm0 = old(cache)@;
    let ghost renc = reenc_views(reencoded@);
    let ghost files = info@.files;

    let headers = match store.get(&info.headers) {
        Option::Some(h) => h,
        Option::None => {
            return Result::Err(Error::IoError);
        },
    };
    let ghost st0 = init_state(headers@, cm0);
    let hlen: usize = headers.len();

    let n = info.files.len();
    let mut out: Vec<u8> = Vec::new();
    let mut hpos: usize = 0;
    let mut i: usize = 0;
    proof {
        assert(headers@.skip(0) =~= headers@);
        assert(out@ =~= Seq::<u8>::empty());
    }
    while i < n
        invariant
            store.wf(),
            cache.wf(),
            sm == store@,
            cm0 == old(cache)@,
            renc == reenc_views(reencoded@),
            renc.len() == reencoded@.len(),
            files == info@.files,
            n == info.files@.len(),
            sm.contains_key(info.headers@),
            sm[info.headers@] == headers@,
            st0 == init_state(headers@, cm0),
            hlen == headers@.len(),
            i <= n,
            hpos <= hlen,
            rebuild_upto(files, renc, sm, st0, use_cache, i as int) == Result::<
                RebuildState,
                Error,
            >::Ok(RebuildState { out: out@, hrem: headers@.skip(hpos as int), cache: cache@ }),
        decreases n - i,
    {
        let ghost st = RebuildState { out: out@, hrem: headers@.skip(hpos as int), cache: cache@ };
        let ghost rec = files[i as int];
        proof {
            assert(info.files@[i as int]@ == rec);
        }

        // The header bytes (and any gap) preceding this record's data.
        let out_len: usize = out.len();
        let offset = info.files[i].offset;
        if offset < out_len as u64 {
            proof {
                lemma_fail_exit(files, renc, sm, st0, use_cache, i as int, st, Error::IoError);
            }
            return Result::Err(Error::IoError);
        }
        let need_u64: u64 = offset - (out_len as u64);
        if need_u64 > (hlen - hpos) as u64 {
            proof {
                assert(st.hrem.len() == hlen - hpos);
                lemma_fail_exit(files, renc, sm, st0, use_cache, i as int, st, Error::IoError);
            }
            return Result::Err(Error::IoError);
        }
        let need: usize = need_u64 as usize;
        copy_bytes(headers, hpos, need, &mut out);
        hpos = hpos + need;
        proof {
            assert(out@ =~= st.out + st.hrem.take(need as int));
            assert(headers@.skip(hpos as int) =~= st.hrem.skip(need as int));
        }

        match &info.files[i].diff {
            Option::None => {
                // A raw record: the data blob is reinserted verbatim.
                match store.get(&info.files[i].data) {
                    Option::None => {
                        proof {
                            lemma_fail_exit(
                                files,
                                renc,
                                sm,
                                st0,
                                use_cache,
                                i as int,
                                st,
                                Error::IoError,
                            );
                        }
                        return Result::Err(Error::IoError);
                    },
                    Option::Some(data) => {
                        copy_bytes(data, 0, data.len(), &mut out);
                        proof {
                            assert(out@ =~= st.out + st.hrem.take(need as int) + sm[rec.data]);
                        }
                    },
                }
            },
            Option::Some(_) => {
                // A codec record: cached bytes if available, else the
                // supplied re-encode result, which then populates the cache.
                let mut hit: bool = false;
                if use_cache {
                    match &info.files[i].hash {
                        Option::Some(h) => {
                            match cache.get(h) {
                                Option::Some(cached) => {
                                    copy_bytes(cached, 0, cached.len(), &mut out);
                                    hit = true;
                                    proof {
                                        assert(out@ =~= st.out + st.hrem.take(need as int)
                                            + st.cache[rec.hash->Some_0]);
                                    }
                                },
                                Option::None => {},
                            }
                        },
                        Option::None => {},
                    }
                }
                proof {
                    assert(hit == (use_cache && rec.hash is Some && st.cache.contains_key(
                        rec.hash->Some_0,
                    )));
                }
                if !hit {
                    if i >= reencoded.len() {
                        proof {
                            assert(reenc_at(renc, i as int) is None);
                            lemma_fail_exit(
                                files,
                                renc,
                                sm,
                                st0,
                                use_cache,
                                i as int,
                                st,
                                Error::PreflateError,
                            );
                        }
                        return Result::Err(Error::PreflateError);
                    }
                    match &reencoded[i] {
                        Option::None => {
                            proof {
                                assert(reenc_at(renc, i as int) is None);
                                lemma_fail_exit(
                                    files,
                                    renc,
                                    sm,
                                    st0,
                                    use_cache,
                                    i as int,
                                    st,
                                    Error::PreflateError,
                                );
                            }
                            return Result::Err(Error::PreflateError);
                        },
                        Option::Some(enc) => {
                            proof {
                                assert(reenc_at(renc, i as int) == Option::Some(enc@));
                            }
                            copy_bytes(enc, 0, enc.len(), &mut out);
                            proof {
                                assert(out@ =~= st.out + st.hrem.take(need as int) + enc@);
                            }
                            if use_cache {
                                match &info.files[i].hash {
                                    Option::Some(h) => {
                                        let mut enc_copy: Vec<u8> = Vec::new();
                                        copy_bytes(enc, 0, enc.len(), &mut enc_copy);
                                        proof {
                                            assert(enc_copy@ =~= enc@);
                                        }
                                        let key = h.clone();
                                        cache.insert_if_absent(key, enc_copy);
                                        proof {
                                            assert(cache@ =~= st.cache.insert(
                                                rec.hash->Some_0,
                                                enc@,
                                            ));
                                        }
                                    },
                                    Option::None => {},
                                }
                            }
                        },
                    }
                }
            },
        }
        i = i + 1;
        proof {
            assert(rebuild_upto(files, renc, sm, st0, use_cache, i as int) == Result::<
                RebuildState,
                Error,
            >::Ok(RebuildState { out: out@, hrem: headers@.skip(hpos as int), cache: cache@ }));
        }
    }

    // The central directory and trailer: all remaining header bytes.
    copy_bytes(headers, hpos, hlen - hpos, &mut out);
    proof {
        assert(out@ =~= (rebuild_upto(
            files,
            renc,
            sm,
            st0,
            use_cache,
            n as int,
        )->Ok_0).out + (rebuild_upto(files, renc, sm, st0, use_cache, n as int)->Ok_0).hrem);
    }
    Result::Ok(out)
}

} // verus!
