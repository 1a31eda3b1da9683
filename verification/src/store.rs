//! Content-addressed blob store with a first-writer-wins policy: a blob is
//! written at most once per distinct name; a later write under an existing
//! name is skipped. This makes repeated dumps idempotent and lets archives
//! sharing content deduplicate their blobs.
use vstd::prelude::*;

verus! {

/// The map a sequence of named blobs denotes; later pairs win, though the
/// store never holds two pairs with one name.
pub closed spec fn map_of(entries: Seq<(String, Vec<u8>)>) -> Map<Seq<char>, Seq<u8>>
    decreases entries.len(),
{
    if entries.len() == 0 {
        Map::empty()
    } else {
        map_of(entries.drop_last()).insert(entries.last().0@, entries.last().1@)
    }
}

/// Inserts `(name, data)` into `m` unless `name` is already bound:
/// the blob-write policy of the whole pipeline.
pub open spec fn write_blob(m: Map<Seq<char>, Seq<u8>>, name: Seq<char>, data: Seq<u8>) -> Map<
    Seq<char>,
    Seq<u8>,
> {
    if m.contains_key(name) {
        m
    } else {
        m.insert(name, data)
    }
}

/// The store after every named write in `ws`, applied in order under the
/// first-writer-wins policy.
pub open spec fn store_after(
    m: Map<Seq<char>, Seq<u8>>,
    ws: Seq<(Seq<char>, Seq<u8>)>,
) -> Map<Seq<char>, Seq<u8>>
    decreases ws.len(),
{
    if ws.len() == 0 {
        m
    } else {
        write_blob(store_after(m, ws.drop_last()), ws.last().0, ws.last().1)
    }
}

/// Writing `w1` then `w2` is writing their concatenation.
pub proof fn lemma_store_after_app(
    m: Map<Seq<char>, Seq<u8>>,
    w1: Seq<(Seq<char>, Seq<u8>)>,
    w2: Seq<(Seq<char>, Seq<u8>)>,
)
    ensures
        store_after(m, w1 + w2) == store_after(store_after(m, w1), w2),
    decreases w2.len(),
{
    if w2.len() == 0 {
        assert(w1 + w2 =~= w1);
    } else {
        lemma_store_after_app(m, w1, w2.drop_last());
        assert((w1 + w2).drop_last() =~= w1 + w2.drop_last());
        assert((w1 + w2).last() == w2.last());
    }
}

/// A set of named blobs. Its view is the map from blob name to blob bytes.
pub struct BlobStore {
    entries: Vec<(String, Vec<u8>)>,
}

impl View for BlobStore {
    type V = Map<Seq<char>, Seq<u8>>;

    closed spec fn view(&self) -> Map<Seq<char>, Seq<u8>> {
        map_of(self.entries@)
    }
}

impl BlobStore {
    /// No two stored pairs carry the same name.
    pub closed spec fn wf(&self) -> bool {
        forall|i: int, j: int|
            0 <= i < j < self.entries@.len() ==> self.entries@[i].0@ != self.entries@[j].0@
    }

    pub fn new() -> (r: BlobStore)
        ensures
            r@ == Map::<Seq<char>, Seq<u8>>::empty(),
            r.wf(),
    {
        BlobStore { entries: Vec::new() }
    }

    /// How many distinct blobs the store holds.
    pub fn blob_count(&self) -> (r: usize)
        requires
            self.wf(),
        ensures
            r == self@.dom().len(),
    {
        proof {
            lemma_map_of_dom_len(self.entries@);
        }
        self.entries.len()
    }

    /// The name and bytes of the `i`-th stored blob, for walking the store.
    pub fn blob_at(&self, i: usize) -> (r: &(String, Vec<u8>))
        requires
            self.wf(),
            i < self@.dom().len(),
        ensures
            self@.contains_key(r.0@),
            self@[r.0@] == r.1@,
    {
        proof {
            lemma_map_of_dom_len(self.entries@);
            lemma_map_of_contains(self.entries@, self.entries@[i as int].0@);
            lemma_map_of_get(self.entries@, i as int);
        }
        &self.entries[i]
    }

    /// Whether a blob named `name` is already stored.
    pub fn contains(&self, name: &String) -> (r: bool)
        ensures
            r == self@.contains_key(name@),
    {
        let n = self.entries.len();
        let mut i: usize = 0;
        while i < n
            invariant
                n == self.entries@.len(),
                i <= n,
                forall|k: int| 0 <= k < i ==> self.entries@[k].0@ != name@,
            decreases n - i,
        {
            if self.entries[i].0 == *name {
                proof {
                    lemma_map_of_contains(self.entries@, name@);
                }
                return true;
            }
            i = i + 1;
        }
        proof {
            lemma_map_of_contains(self.entries@, name@);
        }
        false
    }

    /// The bytes stored under `name`, if any.
    pub fn get(&self, name: &String) -> (r: Option<&Vec<u8>>)
        requires
            self.wf(),
        ensures
            match r {
                Option::Some(v) => self@.contains_key(name@) && self@[name@] == v@,
                Option::None => !self@.contains_key(name@),
            },
    {
        let n = self.entries.len();
        let mut i: usize = 0;
        while i < n
            invariant
                self.wf(),
                n == self.entries@.len(),
                i <= n,
                forall|k: int| 0 <= k < i ==> self.entries@[k].0@ != name@,
            decreases n - i,
        {
            if self.entries[i].0 == *name {
                proof {
                    lemma_map_of_contains(self.entries@, name@);
                    lemma_map_of_get(self.entries@, i as int);
                }
                return Option::Some(&self.entries[i].1);
            }
            i = i + 1;
        }
        proof {
            lemma_map_of_contains(self.entries@, name@);
        }
        Option::None
    }

    /// Stores `data` under `name` unless a blob of that name exists;
    /// returns whether the blob was written.
    pub fn insert_if_absent(&mut self, name: String, data: Vec<u8>) -> (written: bool)
        requires
            old(self).wf(),
        ensures
            final(self).wf(),
            final(self)@ == write_blob(old(self)@, name@, data@),
            written == !old(self)@.contains_key(name@),
    {
        if self.contains(&name) {
            false
        } else {
            proof {
                lemma_map_of_contains(self.entries@, name@);
                assert(self.entries@.push((name, data)).drop_last() =~= self.entries@);
            }
            let ghost old_entries = self.entries@;
            self.entries.push((name, data));
            proof {
                assert(self.entries@.drop_last() =~= old_entries);
                assert forall|i: int, j: int| 0 <= i < j < self.entries@.len() implies self.entries@[i].0@
                    != self.entries@[j].0@ by {
                    if j == self.entries@.len() - 1 {
                        lemma_map_of_contains(old_entries, self.entries@[i].0@);
                    }
                }
            }
            true
        }
    }
}

/// A name is bound in `map_of(s)` exactly when some pair of `s` carries it.
pub proof fn lemma_map_of_contains(s: Seq<(String, Vec<u8>)>, name: Seq<char>)
    ensures
        map_of(s).contains_key(name) <==> exists|i: int| 0 <= i < s.len() && s[i].0@ == name,
    decreases s.len(),
{
    if s.len() > 0 {
        lemma_map_of_contains(s.drop_last(), name);
        if s.last().0@ == name {
            assert(s[s.len() - 1].0@ == name);
        } else if map_of(s).contains_key(name) {
            let i = choose|i: int| 0 <= i < s.drop_last().len() && s.drop_last()[i].0@ == name;
            assert(s[i].0@ == name);
        } else {
            assert forall|i: int| 0 <= i < s.len() implies s[i].0@ != name by {
                if i < s.len() - 1 {
                    assert(s.drop_last()[i].0@ != name);
                }
            }
        }
    }
}

/// Under unique names, `map_of(s)` binds the `i`-th name to the `i`-th bytes.
pub proof fn lemma_map_of_get(s: Seq<(String, Vec<u8>)>, i: int)
    requires
        0 <= i < s.len(),
        forall|k: int, j: int| 0 <= k < j < s.len() ==> s[k].0@ != s[j].0@,
    ensures
        map_of(s).contains_key(s[i].0@),
        map_of(s)[s[i].0@] == s[i].1@,
    decreases s.len(),
{
    lemma_map_of_contains(s, s[i].0@);
    if i < s.len() - 1 {
        assert(forall|k: int, j: int|
            0 <= k < j < s.drop_last().len() ==> s.drop_last()[k].0@ != s.drop_last()[j].0@);
        lemma_map_of_get(s.drop_last(), i);
        assert(s.last().0@ != s[i].0@);
    }
}

/// Under unique names, the store holds as many blobs as it has pairs.
pub proof fn lemma_map_of_dom_len(s: Seq<(String, Vec<u8>)>)
    requires
        forall|k: int, j: int| 0 <= k < j < s.len() ==> s[k].0@ != s[j].0@,
    ensures
        map_of(s).dom().len() == s.len(),
        map_of(s).dom().finite(),
    decreases s.len(),
{
    if s.len() == 0 {
        assert(map_of(s).dom() =~= Set::<Seq<char>>::empty());
    } else {
        assert(forall|k: int, j: int|
            0 <= k < j < s.drop_last().len() ==> s.drop_last()[k].0@ != s.drop_last()[j].0@);
        lemma_map_of_dom_len(s.drop_last());
        lemma_map_of_contains(s.drop_last(), s.last().0@);
        assert(!map_of(s.drop_last()).contains_key(s.last().0@));
        assert(map_of(s).dom() =~= map_of(s.drop_last()).dom().insert(s.last().0@));
        vstd::set::axiom_set_insert_len(map_of(s.drop_last()).dom(), s.last().0@);
    }
}

} // verus!
