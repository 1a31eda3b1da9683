//! Entry enumeration and classification: reads the archive's entry table
//! through the zip collaborator, drops directory entries (they carry no byte
//! range), and sorts the rest by ascending data offset, establishing the
//! partition of the archive into data regions and header regions.
use vstd::prelude::*;

use crate::Error;

verus! {

/// Mathematical view of an [`EntryMeta`].
pub ghost struct EntrySpec {
    pub offset: int,
    pub size: int,
    pub deflate: bool,
    pub name: Seq<char>,
    pub is_dir: bool,
}

/// One archive entry as the enumeration collaborator reports it: where its
/// compressed data starts, how long it is, whether it is deflate-compressed,
/// its logical name, and whether it is a directory.
#[derive(Debug)]
pub struct EntryMeta {
    /// Absolute byte offset of the entry's compressed data in the archive.
    pub offset: u64,
    /// Length in bytes of the entry's compressed data.
    pub size: u64,
    /// Whether the entry is deflate-compressed (anything else is treated as
    /// raw bytes to copy verbatim).
    pub deflate: bool,
    /// The entry's logical name, also the default blob name.
    pub name: String,
    /// Whether the entry is a directory; such entries carry no data.
    pub is_dir: bool,
}

impl View for EntryMeta {
    type V = EntrySpec;

    open spec fn view(&self) -> EntrySpec {
        EntrySpec {
            offset: self.offset as int,
            size: self.size as int,
            deflate: self.deflate,
            name: self.name@,
            is_dir: self.is_dir,
        }
    }
}

impl EntryMeta {
    /// A copy with the same view.
    pub fn duplicate(&self) -> (r: EntryMeta)
        ensures
            r@ == self@,
    {
        EntryMeta {
            offset: self.offset,
            size: self.size,
            deflate: self.deflate,
            name: self.name.clone(),
            is_dir: self.is_dir,
        }
    }
}

/// The views of a sequence of entries.
pub open spec fn views_of(s: Seq<EntryMeta>) -> Seq<EntrySpec> {
    s.map_values(|e: EntryMeta| e@)
}

/// The entry names the archive's table lists, in table order; `None` when
/// the table cannot be parsed. A deterministic function of the bytes.
pub uninterp spec fn zip_names_of(data: Seq<u8>) -> Option<Seq<Seq<char>>>;

/// What the archive's table records for the named entry: data offset,
/// compressed size, whether deflate, sanitized name, whether a directory.
/// `None` when the entry cannot be located. Deterministic in its arguments.
pub uninterp spec fn zip_entry_of(data: Seq<u8>, name: Seq<char>) -> Option<
    (int, int, bool, Seq<char>, bool),
>;

/// Relies on zip::ZipArchive::new and ZipArchive::file_names: the names in
/// the archive's central directory, in directory order (the archive is held
/// in an insertion-ordered map), a deterministic parse of the bytes.
#[verifier::external_body]
fn zip_list_names(data: &Vec<u8>) -> (r: Result<Vec<String>, Error>)
    ensures
        match r {
            Result::Ok(v) => zip_names_of(data@) == Option::Some(
                v@.map_values(|s: String| s@),
            ),
            Result::Err(e) => zip_names_of(data@) is None && e == Error::ZipError,
        },
{
    let archive = match zip::ZipArchive::new(std::io::Cursor::new(data.as_slice())) {
        Ok(a) => a,
        Err(_) => return Err(Error::ZipError),
    };
    Ok(archive.file_names().map(|s| s.to_string()).collect())
}

/// Relies on zip::ZipArchive::by_name and the ZipFile accessors data_start,
/// compressed_size, compression, enclosed_name, mangled_name and is_dir: the
/// named entry's recorded metadata, a deterministic parse of the bytes.
#[verifier::external_body]
fn zip_entry_meta(data: &Vec<u8>, name: &String) -> (r: Result<EntryMeta, Error>)
    ensures
        match r {
            Result::Ok(m) => zip_entry_of(data@, name@) == Option::Some(
                (m.offset as int, m.size as int, m.deflate, m.name@, m.is_dir),
            ),
            Result::Err(e) => zip_entry_of(data@, name@) is None && e == Error::ZipError,
        },
{
    let cursor = std::io::Cursor::new(data.as_slice());
    let mut archive = zip::ZipArchive::new(cursor).map_err(|_| Error::ZipError)?;
    let file = archive.by_name(name.as_str()).map_err(|_| Error::ZipError)?;
    let offset = file.data_start().ok_or(Error::ZipError)?;
    let path = file.enclosed_name().unwrap_or_else(|| file.mangled_name());
    Ok(EntryMeta {
        offset,
        size: file.compressed_size(),
        deflate: file.compression() == zip::CompressionMethod::Deflated,
        name: path.to_string_lossy().to_string(),
        is_dir: file.is_dir(),
    })
}

/// The entry a `zip_entry_of` tuple denotes.
pub open spec fn entry_of_tuple(t: (int, int, bool, Seq<char>, bool)) -> EntrySpec {
    EntrySpec { offset: t.0, size: t.1, deflate: t.2, name: t.3, is_dir: t.4 }
}

/// The metadata of the named entries, or `None` when any cannot be located.
pub open spec fn metas_of(data: Seq<u8>, names: Seq<Seq<char>>) -> Option<Seq<EntrySpec>>
    decreases names.len(),
{
    if names.len() == 0 {
        Option::Some(Seq::empty())
    } else {
        match (metas_of(data, names.drop_last()), zip_entry_of(data, names.last())) {
            (Option::Some(front), Option::Some(t)) => Option::Some(front.push(entry_of_tuple(t))),
            _ => Option::None,
        }
    }
}

/// Every entry of the archive's table, in table order; `None` when the table
/// or any entry cannot be parsed.
pub open spec fn zip_entries_spec(data: Seq<u8>) -> Option<Seq<EntrySpec>> {
    match zip_names_of(data) {
        Option::None => Option::None,
        Option::Some(names) => metas_of(data, names),
    }
}

proof fn lemma_metas_of_none(data: Seq<u8>, names: Seq<Seq<char>>, i: int)
    requires
        0 <= i < names.len(),
        zip_entry_of(data, names[i]) is None,
    ensures
        metas_of(data, names) is None,
    decreases names.len(),
{
    if i < names.len() - 1 {
        assert(names.drop_last()[i] == names[i]);
        lemma_metas_of_none(data, names.drop_last(), i);
    }
}

/// Enumerates the archive's entries in table order.
pub fn list_entries(archive: &Vec<u8>) -> (r: Result<Vec<EntryMeta>, Error>)
    ensures
        match r {
            Result::Ok(v) => zip_entries_spec(archive@) == Option::Some(views_of(v@)),
            Result::Err(e) => zip_entries_spec(archive@) is None && e == Error::ZipError,
        },
{
    let names = match zip_list_names(archive) {
        Result::Ok(v) => v,
        Result::Err(e) => {
            return Result::Err(e);
        },
    };
    let ghost names_view = names@.map_values(|s: String| s@);
    let n = names.len();
    let mut out: Vec<EntryMeta> = Vec::new();
    let mut i: usize = 0;
    while i < n
        invariant
            n == names@.len(),
            i <= n,
            names_view == names@.map_values(|s: String| s@),
            zip_names_of(archive@) == Option::Some(names_view),
            metas_of(archive@, names_view.take(i as int)) == Option::Some(views_of(out@)),
        decreases n - i,
    {
        match zip_entry_meta(archive, &names[i]) {
            Result::Ok(m) => {
                out.push(m);
                proof {
                    assert(names_view.take(i + 1 as int).drop_last() =~= names_view.take(i as int));
                    assert(names_view.take(i + 1 as int).last() == names_view[i as int]);
                    assert(views_of(out@) =~= views_of(out@.drop_last()).push(out@.last()@));
                }
            },
            Result::Err(e) => {
                proof {
                    lemma_metas_of_none(archive@, names_view, i as int);
                }
                return Result::Err(e);
            },
        }
        i = i + 1;
    }
    proof {
        assert(names_view.take(n as int) =~= names_view);
    }
    Result::Ok(out)
}

/// The non-directory entries of `s`, in order.
pub open spec fn keep_files(s: Seq<EntrySpec>) -> Seq<EntrySpec>
    decreases s.len(),
{
    if s.len() == 0 {
        Seq::empty()
    } else {
        let front = keep_files(s.drop_last());
        if s.last().is_dir {
            front
        } else {
            front.push(s.last())
        }
    }
}

/// `e` placed into the already-sorted `s`, after any entry of equal offset.
pub open spec fn insert_sorted(e: EntrySpec, s: Seq<EntrySpec>) -> Seq<EntrySpec>
    decreases s.len(),
{
    if s.len() == 0 {
        seq![e]
    } else if e.offset < s[0].offset {
        seq![e] + s
    } else {
        seq![s[0]] + insert_sorted(e, s.drop_first())
    }
}

/// `s` sorted by ascending offset, by repeated insertion.
pub open spec fn sort_by_offset(s: Seq<EntrySpec>) -> Seq<EntrySpec>
    decreases s.len(),
{
    if s.len() == 0 {
        Seq::empty()
    } else {
        insert_sorted(s.last(), sort_by_offset(s.drop_last()))
    }
}

/// What the Entry Classifier produces: the non-directory entries, sorted by
/// ascending data offset.
pub open spec fn classify_spec(s: Seq<EntrySpec>) -> Seq<EntrySpec> {
    sort_by_offset(keep_files(s))
}

proof fn lemma_insert_sorted_at(e: EntrySpec, s: Seq<EntrySpec>, pos: int)
    requires
        0 <= pos <= s.len(),
        forall|k: int| 0 <= k < pos ==> s[k].offset <= e.offset,
        pos < s.len() ==> e.offset < s[pos].offset,
    ensures
        insert_sorted(e, s) == s.take(pos) + seq![e] + s.skip(pos),
    decreases pos,
{
    if pos == 0 {
        assert(insert_sorted(e, s) =~= s.take(0) + seq![e] + s.skip(0));
    } else {
        assert(forall|k: int| 0 <= k < pos - 1 ==> s.drop_first()[k].offset <= e.offset);
        lemma_insert_sorted_at(e, s.drop_first(), pos - 1);
        assert(insert_sorted(e, s) =~= s.take(pos) + seq![e] + s.skip(pos));
    }
}

/// Drops directory entries and sorts the rest by ascending offset.
pub fn classify(entries: &Vec<EntryMeta>) -> (r: Vec<EntryMeta>)
    ensures
        views_of(r@) == classify_spec(views_of(entries@)),
{
    let n = entries.len();
    let mut out: Vec<EntryMeta> = Vec::new();
    let mut i: usize = 0;
    while i < n
        invariant
            n == entries@.len(),
            i <= n,
            views_of(out@) == classify_spec(views_of(entries@.take(i as int))),
        decreases n - i,
    {
        proof {
            assert(views_of(entries@.take(i + 1 as int)) =~= views_of(
                entries@.take(i as int),
            ).push(entries@[i as int]@));
            assert(views_of(entries@.take(i + 1 as int)).drop_last() =~= views_of(
                entries@.take(i as int),
            ));
        }
        if !entries[i].is_dir {
            let e = entries[i].duplicate();
            let m = out.len();
            let mut pos: usize = 0;
            while pos < m && out[pos].offset <= e.offset
                invariant
                    m == out@.len(),
                    pos <= m,
                    forall|k: int| 0 <= k < pos ==> views_of(out@)[k].offset <= e@.offset,
                decreases m - pos,
            {
                pos = pos + 1;
            }
            proof {
                lemma_insert_sorted_at(e@, views_of(out@), pos as int);
            }
            let ghost pre = out@;
            out.insert(pos, e);
            proof {
                assert(views_of(out@) =~= views_of(pre).take(pos as int) + seq![
                    entries@[i as int]@,
                ] + views_of(pre).skip(pos as int));
                assert(views_of(out@) == insert_sorted(entries@[i as int]@, views_of(pre)));
                let vs0 = views_of(entries@.take(i as int));
                let vs1 = views_of(entries@.take(i + 1 as int));
                assert(vs1.last() == entries@[i as int]@);
                assert(keep_files(vs1) == keep_files(vs0).push(entries@[i as int]@));
                assert(keep_files(vs1).drop_last() =~= keep_files(vs0));
                assert(sort_by_offset(keep_files(vs1)) == insert_sorted(
                    entries@[i as int]@,
                    sort_by_offset(keep_files(vs0)),
                ));
            }
        }
        i = i + 1;
    }
    proof {
        assert(entries@.take(n as int) =~= entries@);
    }
    out
}

/// The classified entries partition the archive: every data range lies
/// inside `[0, len)` and ranges do not overlap (offsets ascend).
pub open spec fn entries_wf(es: Seq<EntrySpec>, len: int) -> bool {
    &&& forall|i: int|
        0 <= i < es.len() ==> (0 <= #[trigger] es[i].offset && 0 <= es[i].size && es[i].offset
            + es[i].size <= len)
    &&& forall|i: int|
        0 <= i < es.len() - 1 ==> #[trigger] es[i].offset + es[i].size <= es[i + 1].offset
}

/// Checks that classified entries form a valid partition of an archive of
/// `len` bytes.
pub fn entries_well_formed(entries: &Vec<EntryMeta>, len: u64) -> (r: bool)
    ensures
        r == entries_wf(views_of(entries@), len as int),
{
    let n = entries.len();
    let mut i: usize = 0;
    while i < n
        invariant
            n == entries@.len(),
            i <= n,
            forall|k: int|
                0 <= k < i ==> (0 <= #[trigger] views_of(entries@)[k].offset && 0 <= views_of(
                    entries@,
                )[k].size && views_of(entries@)[k].offset + views_of(entries@)[k].size
                    <= len as int),
            forall|k: int|
                0 <= k < i && k < n - 1 ==> #[trigger] views_of(entries@)[k].offset + views_of(
                    entries@,
                )[k].size <= views_of(entries@)[k + 1].offset,
        decreases n - i,
    {
        let e_offset = entries[i].offset;
        let e_size = entries[i].size;
        if e_offset > len || e_size > len - e_offset {
            proof {
                assert(views_of(entries@)[i as int].offset + views_of(entries@)[i as int].size
                    > len as int);
            }
            return false;
        }
        if i + 1 < n {
            if entries[i + 1].offset < e_offset || e_size > entries[i + 1].offset - e_offset {
                proof {
                    assert(views_of(entries@)[i as int].offset + views_of(entries@)[i as int].size
                        > views_of(entries@)[i + 1 as int].offset);
                }
                return false;
            }
        }
        i = i + 1;
    }
    true
}

} // verus!
