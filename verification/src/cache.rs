//! The resume cache: the record last made of each file, valid for as
//! long as the file keeps the size and the modification time it had.

use vstd::prelude::*;
use vstd::hash_map::StringHashMap;
use crate::fingerprint::{clean_rms_db_level, cleaned_bits, finite_bits};
use crate::record::{AudioFile, AudioRecord};

verus! {

/// A record together with the size and the modification time that the
/// file had when the record was made.
#[derive(Debug, PartialEq, Eq)]
pub struct CachedEntry {
    pub audio_file: AudioFile,
    pub file_size: u64,
    pub modified_secs: u64,
}

/// A `CachedEntry` as a mathematical value.
pub struct CachedRecord {
    pub audio_file: AudioRecord,
    pub file_size: u64,
    pub modified_secs: u64,
}

impl View for CachedEntry {
    type V = CachedRecord;

    open spec fn view(&self) -> CachedRecord {
        CachedRecord {
            audio_file: self.audio_file@,
            file_size: self.file_size,
            modified_secs: self.modified_secs,
        }
    }
}

impl Clone for CachedEntry {
    fn clone(&self) -> (r: CachedEntry)
        ensures
            r@ == self@,
    {
        CachedEntry {
            audio_file: self.audio_file.clone(),
            file_size: self.file_size,
            modified_secs: self.modified_secs,
        }
    }
}

/// The record with a finite RMS level: itself, or with the sentinel in
/// place of a level that is not finite.
pub open spec fn cleaned(record: AudioRecord) -> AudioRecord {
    AudioRecord { rms_db_level: cleaned_bits(record.rms_db_level), ..record }
}

/// The entry with a finite RMS level.
pub open spec fn cleaned_entry(entry: CachedRecord) -> CachedRecord {
    CachedRecord { audio_file: cleaned(entry.audio_file), ..entry }
}

/// What a lookup finds: the record kept under `path`, if there is one
/// and it was made of a file of this size and modification time.
pub open spec fn lookup_in(
    store: Map<Seq<char>, CachedRecord>,
    path: Seq<char>,
    file_size: u64,
    modified_secs: u64,
) -> Option<AudioRecord> {
    if store.contains_key(path) && store[path].file_size == file_size
        && store[path].modified_secs == modified_secs {
        Some(store[path].audio_file)
    } else {
        None
    }
}

/// The store after `record` has been put in it: the entry under the
/// record's own path is replaced as a whole, and nothing else changes.
pub open spec fn store_in(
    store: Map<Seq<char>, CachedRecord>,
    record: AudioRecord,
    file_size: u64,
    modified_secs: u64,
) -> Map<Seq<char>, CachedRecord> {
    store.insert(
        record.file_path,
        CachedRecord { audio_file: cleaned(record), file_size, modified_secs },
    )
}

/// The store that a list of keyed entries makes: each entry stands under
/// its key, a later one in place of an earlier one with the same key.
pub open spec fn loaded_store(pairs: Seq<(String, CachedEntry)>) -> Map<Seq<char>, CachedRecord>
    decreases pairs.len(),
{
    if pairs.len() == 0 {
        Map::empty()
    } else {
        loaded_store(pairs.drop_last()).insert(pairs.last().0@, cleaned_entry(pairs.last().1@))
    }
}

/// Whether every record in the store has a finite RMS level.
pub open spec fn all_finite(store: Map<Seq<char>, CachedRecord>) -> bool {
    forall|k: Seq<char>| #[trigger] store.contains_key(k) ==> store[k].audio_file.well_formed()
}

/// Whether one more insertion brings the count of insertions since the
/// last save to the threshold.
pub open spec fn checkpoint_due(pending: usize, save_every: usize) -> bool {
    pending + 1 >= save_every
}

/// What was found where the store is persisted.
pub enum LoadOutcome {
    /// Nothing is there.
    Missing,
    /// Something is there and could not be opened.
    OpenFailed,
    /// Something is there and is no store.
    ParseFailed,
    /// The store that was there, as keyed entries.
    Parsed(Vec<(String, CachedEntry)>),
}

impl LoadOutcome {
    /// Whether what was found has to be moved aside: it is there and
    /// cannot be used.
    pub open spec fn broken(self) -> bool {
        self is OpenFailed || self is ParseFailed
    }

    /// The store to start from.
    pub open spec fn store(self) -> Map<Seq<char>, CachedRecord> {
        match self {
            LoadOutcome::Parsed(pairs) => loaded_store(pairs@),
            _ => Map::empty(),
        }
    }
}

/// The records of earlier runs, by file path.
pub struct ResumeCache {
    path: String,
    keys: Vec<String>,
    entries: Vec<CachedEntry>,
    index: StringHashMap<usize>,
    save_every: usize,
    pending: usize,
}

impl View for ResumeCache {
    type V = Map<Seq<char>, CachedRecord>;

    closed spec fn view(&self) -> Map<Seq<char>, CachedRecord> {
        Map::new(
            |k: Seq<char>| self.index@.contains_key(k),
            |k: Seq<char>| self.entries@[self.index@[k] as int]@,
        )
    }
}

impl ResumeCache {
    /// The invariant of the cache: every entry is found under its key,
    /// every record has a finite RMS level, and fewer insertions are
    /// pending than make a checkpoint.
    pub closed spec fn well_formed(&self) -> bool {
        &&& self.keys.len() == self.entries.len()
        &&& forall|k: Seq<char>| #[trigger]
            self.index@.contains_key(k) ==> self.index@[k] < self.keys.len()
                && self.keys@[self.index@[k] as int]@ == k
        &&& forall|i: int|
            0 <= i < self.keys.len() ==> self.index@.contains_key(#[trigger] self.keys@[i]@)
                && self.index@[self.keys@[i]@] == i
        &&& forall|i: int|
            0 <= i < self.entries.len() ==> (#[trigger] self.entries@[i])@.audio_file.well_formed()
        &&& self.pending == 0 || self.pending < self.save_every
    }

    /// Where the store is persisted.
    pub closed spec fn location(&self) -> Seq<char> {
        self.path@
    }

    /// How many insertions make a checkpoint.
    pub closed spec fn checkpoint_every(&self) -> usize {
        self.save_every
    }

    /// How many insertions there were since the last checkpoint.
    pub closed spec fn pending_count(&self) -> usize {
        self.pending
    }

    /// In a well-formed cache every record has a finite RMS level.
    pub proof fn lemma_all_finite(&self)
        requires
            self.well_formed(),
        ensures
            all_finite(self@),
    {
        assert forall|k: Seq<char>| #[trigger] self@.contains_key(k) implies self@[k].audio_file.well_formed() by {
            assert(self.index@.contains_key(k));
            let i = self.index@[k] as int;
            assert(self.entries@[i]@.audio_file.well_formed());
        }
    }

    /// An empty cache that is persisted at `path` and asks for a
    /// checkpoint every `save_every` insertions.
    pub fn new(path: String, save_every: usize) -> (r: ResumeCache)
        ensures
            r.well_formed(),
            all_finite(r@),
            r@ == Map::<Seq<char>, CachedRecord>::empty(),
            r.location() == path@,
            r.checkpoint_every() == save_every,
            r.pending_count() == 0,
    {
        let r = ResumeCache {
            path,
            keys: Vec::new(),
            entries: Vec::new(),
            index: StringHashMap::new(),
            save_every,
            pending: 0,
        };
        assert(r@ =~= Map::<Seq<char>, CachedRecord>::empty());
        r
    }

    /// Puts `entry` under `key`, in place of what was there.
    fn put(&mut self, key: String, entry: CachedEntry)
        requires
            old(self).well_formed(),
            entry@.audio_file.well_formed(),
        ensures
            final(self).well_formed(),
            final(self)@ == old(self)@.insert(key@, entry@),
            final(self).location() == old(self).location(),
            final(self).checkpoint_every() == old(self).checkpoint_every(),
            final(self).pending_count() == old(self).pending_count(),
    {
        let found: Option<usize> = match self.index.get(key.as_str()) {
            Some(i) => Some(*i),
            None => None,
        };
        match found {
            Some(i) => {
                self.entries.set(i, entry);
                assert(self.well_formed());
                assert(self@ =~= old(self)@.insert(key@, entry@)) by {
                    assert forall|k: Seq<char>| self@.contains_key(k) implies #[trigger] self@[k]
                        == old(self)@.insert(key@, entry@)[k] by {
                        if k != key@ {
                            assert(self.index@[k] != i);
                        }
                    }
                }
            },
            None => {
                let at: usize = self.keys.len();
                self.index.insert(key.clone(), at);
                self.keys.push(key);
                self.entries.push(entry);
                assert(self.well_formed());
                assert(self@ =~= old(self)@.insert(key@, entry@));
            },
        }
    }

    /// Where the store is persisted.
    pub fn path(&self) -> (r: &str)
        ensures
            r@ == self.location(),
    {
        self.path.as_str()
    }

    /// How many insertions make a checkpoint.
    pub fn save_every(&self) -> (r: usize)
        ensures
            r == self.checkpoint_every(),
    {
        self.save_every
    }

    /// How many insertions there were since the last checkpoint.
    pub fn pending(&self) -> (r: usize)
        ensures
            r == self.pending_count(),
    {
        self.pending
    }

    /// How many files have a record.
    pub fn len(&self) -> (r: usize)
        ensures
            r == self@.len(),
    {
        assert(self@.dom() =~= self.index@.dom());
        self.index.len()
    }

    /// Starts from what was found where the store is persisted.
    ///
    /// The cache holds the store that was found, and is empty where none
    /// was found or what was found cannot be used. The flag says whether
    /// what was found has to be moved aside.
    pub fn load(path: String, save_every: usize, outcome: LoadOutcome) -> (r: (ResumeCache, bool))
        ensures
            r.0.well_formed(),
            all_finite(r.0@),
            r.0@ == outcome.store(),
            r.0.location() == path@,
            r.0.checkpoint_every() == save_every,
            r.0.pending_count() == 0,
            r.1 == outcome.broken(),
    {
        let mut cache = ResumeCache::new(path, save_every);
        match outcome {
            LoadOutcome::Missing => (cache, false),
            LoadOutcome::OpenFailed => (cache, true),
            LoadOutcome::ParseFailed => (cache, true),
            LoadOutcome::Parsed(pairs) => {
                let mut i: usize = 0;
                assert(pairs@.subrange(0, 0) =~= Seq::<(String, CachedEntry)>::empty());
                while i < pairs.len()
                    invariant
                        i <= pairs.len(),
                        cache.well_formed(),
                        cache@ == loaded_store(pairs@.subrange(0, i as int)),
                        cache.location() == path@,
                        cache.checkpoint_every() == save_every,
                        cache.pending_count() == 0,
                    decreases pairs.len() - i,
                {
                    let key: String = pairs[i].0.clone();
                    let mut entry: CachedEntry = pairs[i].1.clone();
                    entry.audio_file.rms_db_level = clean_rms_db_level(
                        entry.audio_file.rms_db_level,
                    );
                    proof {
                        let next = pairs@.subrange(0, i as int + 1);
                        assert(next.drop_last() =~= pairs@.subrange(0, i as int));
                        assert(next.last() == pairs@[i as int]);
                        assert(entry@ == cleaned_entry(pairs@[i as int].1@));
                    }
                    cache.put(key, entry);
                    i += 1;
                }
                assert(pairs@.subrange(0, pairs.len() as int) =~= pairs@);
                proof {
                    cache.lemma_all_finite();
                }
                (cache, false)
            },
        }
    }

    /// The record kept of the file at `file_path`, if it was made of a
    /// file of this size and modification time.
    pub fn lookup(&self, file_path: &str, file_size: u64, modified_secs: u64) -> (r: Option<
        AudioFile,
    >)
        requires
            self.well_formed(),
        ensures
            r matches Some(a) ==> lookup_in(self@, file_path@, file_size, modified_secs) == Some(
                a@,
            ) && a@.well_formed(),
            r.is_none() ==> lookup_in(self@, file_path@, file_size, modified_secs).is_none(),
    {
        match self.index.get(file_path) {
            None => None,
            Some(i) => {
                let entry: &CachedEntry = &self.entries[*i];
                if entry.file_size == file_size && entry.modified_secs == modified_secs {
                    Some(entry.audio_file.clone())
                } else {
                    None
                }
            },
        }
    }

    /// Keeps `audio_file` as the record of the file at its path, made
    /// when the file had this size and modification time. The result
    /// says whether a checkpoint is due: the cache is then to be saved,
    /// and the count of pending insertions starts again at 0.
    pub fn store(&mut self, audio_file: AudioFile, file_size: u64, modified_secs: u64) -> (r: bool)
        requires
            old(self).well_formed(),
        ensures
            final(self).well_formed(),
            all_finite(final(self)@),
            final(self)@ == store_in(old(self)@, audio_file@, file_size, modified_secs),
            r == checkpoint_due(old(self).pending_count(), old(self).checkpoint_every()),
            final(self).pending_count() == (if r {
                0
            } else {
                old(self).pending_count() + 1
            }),
            final(self).location() == old(self).location(),
            final(self).checkpoint_every() == old(self).checkpoint_every(),
    {
        let key: String = audio_file.file_path.clone();
        let mut audio_file = audio_file;
        audio_file.rms_db_level = clean_rms_db_level(audio_file.rms_db_level);
        self.put(key, CachedEntry { audio_file, file_size, modified_secs });
        proof {
            self.lemma_all_finite();
        }
        let count: usize = self.pending + 1;
        if count >= self.save_every {
            self.pending = 0;
            true
        } else {
            self.pending = count;
            false
        }
    }

    /// The store as keyed entries, for persisting: each entry of the
    /// store once, under its key and as it stands in the store, with a
    /// finite level. Loading what this gives restores the store.
    pub fn save(&self) -> (r: Vec<(String, CachedEntry)>)
        requires
            self.well_formed(),
        ensures
            r@.len() == self@.len(),
            forall|i: int, j: int| 0 <= i < j < r@.len() ==> r@[i].0@ != r@[j].0@,
            forall|i: int|
                0 <= i < r@.len() ==> self@.contains_key((#[trigger] r@[i]).0@) && r@[i].1@
                    == self@[r@[i].0@] && r@[i].1@.audio_file.well_formed(),
            forall|k: Seq<char>|
                self@.contains_key(k) ==> exists|i: int|
                    0 <= i < r@.len() && (#[trigger] r@[i]).0@ == k,
            loaded_store(r@) == self@,
    {
        let mut r: Vec<(String, CachedEntry)> = Vec::new();
        let mut i: usize = 0;
        while i < self.keys.len()
            invariant
                i <= self.keys.len(),
                self.well_formed(),
                r@.len() == i,
                forall|j: int|
                    0 <= j < i ==> (#[trigger] r@[j]).0@ == self.keys@[j]@ && r@[j].1@
                        == self.entries@[j]@,
            decreases self.keys.len() - i,
        {
            r.push((self.keys[i].clone(), self.entries[i].clone()));
            i += 1;
        }
        proof {
            assert forall|i: int, j: int| 0 <= i < j < r@.len() implies r@[i].0@ != r@[j].0@ by {
                assert(self.index@[self.keys@[i]@] == i);
                assert(self.index@[self.keys@[j]@] == j);
            }
            assert forall|i: int| 0 <= i < r@.len() implies (#[trigger] r@[i]).1@.audio_file.well_formed() by {
                assert(self.entries@[i]@.audio_file.well_formed());
            }
            lemma_loaded_store_distinct(r@);
            let loaded = loaded_store(r@);
            assert forall|k: Seq<char>| #[trigger] loaded.dom().contains(k) implies self@.dom().contains(k) by {
                let i = choose|i: int| 0 <= i < r@.len() && (#[trigger] r@[i]).0@ == k;
                assert(self.index@.contains_key(self.keys@[i]@));
            }
            assert forall|k: Seq<char>| #[trigger] self@.dom().contains(k) implies loaded.dom().contains(k)
                && loaded[k] == self@[k] by {
                let i = self.index@[k] as int;
                assert(self.index@.contains_key(k));
                assert(self.keys@[i]@ == k);
                assert(r@[i].0@ == k);
                assert(loaded[r@[i].0@] == r@[i].1@);
            }
            assert(loaded.dom() =~= self@.dom());
            assert(loaded =~= self@);
            assert(self@.dom() =~= self.index@.dom());
            broadcast use vstd::hash_map::group_hash_map_axioms;
            assert(self.index.len() == self.index@.len());
            lemma_index_len(self);
        }
        r
    }
}

/// A list of entries with distinct keys and finite levels makes the
/// store that holds each entry under its key, and nothing else.
pub proof fn lemma_loaded_store_distinct(pairs: Seq<(String, CachedEntry)>)
    requires
        forall|i: int, j: int| 0 <= i < j < pairs.len() ==> pairs[i].0@ != pairs[j].0@,
        forall|i: int| 0 <= i < pairs.len() ==> (#[trigger] pairs[i]).1@.audio_file.well_formed(),
    ensures
        forall|k: Seq<char>|
            loaded_store(pairs).contains_key(k) <==> exists|i: int|
                0 <= i < pairs.len() && (#[trigger] pairs[i]).0@ == k,
        forall|i: int|
            0 <= i < pairs.len() ==> loaded_store(pairs)[(#[trigger] pairs[i]).0@] == pairs[i].1@,
        loaded_store(pairs).dom().finite(),
        loaded_store(pairs).len() == pairs.len(),
    decreases pairs.len(),
{
    if pairs.len() > 0 {
        let init = pairs.drop_last();
        let last = pairs.last();
        assert forall|i: int, j: int| 0 <= i < j < init.len() implies init[i].0@ != init[j].0@ by {
            assert(init[i] == pairs[i] && init[j] == pairs[j]);
        }
        assert forall|i: int| 0 <= i < init.len() implies (#[trigger] init[i]).1@.audio_file.well_formed() by {
            assert(init[i] == pairs[i]);
        }
        lemma_loaded_store_distinct(init);
        assert(pairs[pairs.len() - 1] == last);
        assert(last.1@.audio_file.well_formed());
        assert(cleaned_entry(last.1@) == last.1@);
        assert forall|k: Seq<char>| loaded_store(pairs).contains_key(k) implies exists|i: int|
            0 <= i < pairs.len() && (#[trigger] pairs[i]).0@ == k by {
            if k == last.0@ {
                assert(pairs[pairs.len() - 1].0@ == k);
            } else {
                let i = choose|i: int| 0 <= i < init.len() && (#[trigger] init[i]).0@ == k;
                assert(pairs[i] == init[i]);
            }
        }
        assert forall|k: Seq<char>|
            (exists|i: int|
                0 <= i < pairs.len() && (#[trigger] pairs[i]).0@ == k) implies loaded_store(
            pairs,
        ).contains_key(k) by {
            let i = choose|i: int| 0 <= i < pairs.len() && (#[trigger] pairs[i]).0@ == k;
            if i < init.len() {
                assert(init[i] == pairs[i]);
            }
        }
        assert forall|i: int| 0 <= i < pairs.len() implies loaded_store(pairs)[(
            #[trigger] pairs[i]).0@] == pairs[i].1@ by {
            if i < init.len() {
                assert(init[i] == pairs[i]);
                assert(pairs[i].0@ != pairs[pairs.len() - 1].0@);
            }
        }
        assert(!loaded_store(init).contains_key(last.0@)) by {
            if loaded_store(init).contains_key(last.0@) {
                let i = choose|i: int| 0 <= i < init.len() && (#[trigger] init[i]).0@ == last.0@;
                assert(pairs[i] == init[i]);
                assert(pairs[i].0@ != pairs[pairs.len() - 1].0@);
            }
        }
        assert(loaded_store(pairs).dom() =~= loaded_store(init).dom().insert(last.0@));
    }
}

/// The index of a well-formed cache holds one key for each entry.
proof fn lemma_index_len(cache: &ResumeCache)
    requires
        cache.well_formed(),
    ensures
        cache.index@.dom().finite(),
        cache.index@.len() == cache.keys.len(),
{
    let keys = Seq::new(cache.keys@.len(), |i: int| cache.keys@[i]@);
    assert(keys.no_duplicates()) by {
        assert forall|i: int, j: int| 0 <= i < keys.len() && 0 <= j < keys.len() && i != j implies keys[i] != keys[j] by {
            assert(cache.index@[cache.keys@[i]@] == i);
            assert(cache.index@[cache.keys@[j]@] == j);
        }
    }
    keys.unique_seq_to_set();
    assert(keys.to_set() =~= cache.index@.dom()) by {
        assert forall|k: Seq<char>| keys.to_set().contains(k) implies cache.index@.dom().contains(k) by {
            let i = choose|i: int| 0 <= i < keys.len() && keys[i] == k;
            assert(cache.index@.contains_key(cache.keys@[i]@));
        }
        assert forall|k: Seq<char>| cache.index@.dom().contains(k) implies keys.to_set().contains(k) by {
            let i = cache.index@[k] as int;
            assert(keys[i] == k);
        }
    }
    vstd::seq_lib::seq_to_set_is_finite(keys);
}

/// What is stored is found again under the same path, size and
/// modification time, and the record found is the record stored. Under
/// another size or another modification time nothing is found.
pub proof fn lemma_store_then_lookup(
    store: Map<Seq<char>, CachedRecord>,
    record: AudioRecord,
    file_size: u64,
    modified_secs: u64,
    other_size: u64,
    other_secs: u64,
)
    requires
        record.well_formed(),
        other_size != file_size || other_secs != modified_secs,
    ensures
        lookup_in(
            store_in(store, record, file_size, modified_secs),
            record.file_path,
            file_size,
            modified_secs,
        ) == Some(record),
        lookup_in(
            store_in(store, record, file_size, modified_secs),
            record.file_path,
            other_size,
            other_secs,
        ).is_none(),
{
}

/// Storing the record of one file changes nothing for a file at another
/// path.
pub proof fn lemma_store_keeps_others(
    store: Map<Seq<char>, CachedRecord>,
    record: AudioRecord,
    file_size: u64,
    modified_secs: u64,
    path: Seq<char>,
    size: u64,
    secs: u64,
)
    requires
        path != record.file_path,
    ensures
        lookup_in(store_in(store, record, file_size, modified_secs), path, size, secs)
            == lookup_in(store, path, size, secs),
{
}

/// Storing keeps every level in the store finite, whatever the level of
/// the record that comes in.
pub proof fn lemma_store_keeps_finite(
    store: Map<Seq<char>, CachedRecord>,
    record: AudioRecord,
    file_size: u64,
    modified_secs: u64,
)
    requires
        all_finite(store),
    ensures
        all_finite(store_in(store, record, file_size, modified_secs)),
{
    assert(finite_bits(cleaned_bits(record.rms_db_level))) by {
        assert(0xC08F_4000_0000_0000u64 & 0x7FF0_0000_0000_0000u64 != 0x7FF0_0000_0000_0000u64)
            by (bit_vector);
    }
    let after = store_in(store, record, file_size, modified_secs);
    assert forall|k: Seq<char>| #[trigger] after.contains_key(k) implies after[k].audio_file.well_formed() by {
        if k != record.file_path {
            assert(store.contains_key(k));
        }
    }
}

} // verus!
