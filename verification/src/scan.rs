//! The scan of the candidates: what is done with each of them, and what
//! the cache holds afterwards.

use vstd::prelude::*;
use crate::cache::{checkpoint_due, cleaned, lookup_in, store_in, CachedRecord, ResumeCache};
use crate::dedup::record_views;
use crate::record::{AudioFile, AudioRecord, ProcessError};
use crate::walker::{candidate_views, Candidate, CandidateView};

verus! {

/// What is done with a candidate.
#[derive(Debug, PartialEq, Eq)]
pub enum Step {
    /// It is passed over: no other candidate has its size.
    SkipUnique,
    /// Its record is taken from the cache.
    Cached(AudioFile),
    /// It is decoded.
    Decode,
}

/// A `Step` as a mathematical value.
pub enum StepView {
    SkipUnique,
    Cached(AudioRecord),
    Decode,
}

impl View for Step {
    type V = StepView;

    open spec fn view(&self) -> StepView {
        match self {
            Step::SkipUnique => StepView::SkipUnique,
            Step::Cached(a) => StepView::Cached(a@),
            Step::Decode => StepView::Decode,
        }
    }
}

/// What is done with `candidate`: it is passed over where `skip` says
/// so; else its record is taken from the store, if the store holds one
/// made of a file of the same size and modification time; else it is
/// decoded.
pub open spec fn step_of(
    store: Option<Map<Seq<char>, CachedRecord>>,
    candidate: CandidateView,
    skip: bool,
) -> StepView {
    if skip {
        StepView::SkipUnique
    } else {
        match store {
            None => StepView::Decode,
            Some(m) => match lookup_in(m, candidate.path, candidate.size, candidate.modified_secs) {
                Some(a) => StepView::Cached(a),
                None => StepView::Decode,
            },
        }
    }
}

/// The record with the size and the modification time of the candidate
/// it was made of.
pub open spec fn stamped(record: AudioRecord, candidate: CandidateView) -> AudioRecord {
    AudioRecord { file_size: candidate.size, modified_secs: candidate.modified_secs, ..record }
}

/// The record that the scan hands on for a candidate, if any: the
/// cached one, or the one that decoding gave, stamped. `outcome` is what
/// decoding gave, or nothing where the candidate was not decoded.
pub open spec fn emitted_of(
    store: Option<Map<Seq<char>, CachedRecord>>,
    candidate: CandidateView,
    skip: bool,
    outcome: Option<Result<AudioRecord, ProcessError>>,
) -> Option<AudioRecord> {
    match step_of(store, candidate, skip) {
        StepView::SkipUnique => None,
        StepView::Cached(a) => Some(a),
        StepView::Decode => match outcome {
            Some(Ok(record)) => Some(stamped(record, candidate)),
            _ => None,
        },
    }
}

/// The store after a candidate has been dealt with: the record that
/// decoding gave is put in it, and nothing else changes it.
/// `outcome` is what decoding gave, or nothing where the candidate was
/// not decoded.
pub open spec fn store_after(
    store: Map<Seq<char>, CachedRecord>,
    candidate: CandidateView,
    skip: bool,
    outcome: Option<Result<AudioRecord, ProcessError>>,
) -> Map<Seq<char>, CachedRecord> {
    match step_of(Some(store), candidate, skip) {
        StepView::Decode => match outcome {
            Some(Ok(record)) => store_in(
                store,
                stamped(record, candidate),
                candidate.size,
                candidate.modified_secs,
            ),
            _ => store,
        },
        _ => store,
    }
}

/// The store of a cache, where there is a cache.
pub open spec fn store_of(cache: Option<&ResumeCache>) -> Option<Map<Seq<char>, CachedRecord>> {
    match cache {
        Some(c) => Some(c@),
        None => None,
    }
}

/// How many of the candidates need no decoding: those passed over and
/// those with a record in the store.
pub open spec fn settled_count(
    store: Option<Map<Seq<char>, CachedRecord>>,
    candidates: Seq<CandidateView>,
    skips: Seq<bool>,
) -> nat
    decreases candidates.len(),
{
    if candidates.len() == 0 || skips.len() != candidates.len() {
        0
    } else {
        settled_count(store, candidates.drop_last(), skips.drop_last()) + if step_of(
            store,
            candidates.last(),
            skips.last(),
        ) is Decode {
            0nat
        } else {
            1nat
        }
    }
}

/// How many of the candidates are decoded.
pub open spec fn decode_count(
    store: Option<Map<Seq<char>, CachedRecord>>,
    candidates: Seq<CandidateView>,
    skips: Seq<bool>,
) -> nat
    decreases candidates.len(),
{
    if candidates.len() == 0 || skips.len() != candidates.len() {
        0
    } else {
        decode_count(store, candidates.drop_last(), skips.drop_last()) + if step_of(
            store,
            candidates.last(),
            skips.last(),
        ) is Decode {
            1nat
        } else {
            0nat
        }
    }
}

/// Progress counts every candidate once: it is settled from the start or
/// it is decoded, never both.
pub proof fn lemma_progress_counts_each_once(
    store: Option<Map<Seq<char>, CachedRecord>>,
    candidates: Seq<CandidateView>,
    skips: Seq<bool>,
)
    requires
        skips.len() == candidates.len(),
    ensures
        settled_count(store, candidates, skips) + decode_count(store, candidates, skips)
            == candidates.len(),
    decreases candidates.len(),
{
    if candidates.len() > 0 {
        lemma_progress_counts_each_once(store, candidates.drop_last(), skips.drop_last());
    }
}

/// Decides what is done with a candidate. `skip` says whether it is
/// passed over for its size.
pub fn plan(candidate: &Candidate, skip: bool, cache: Option<&ResumeCache>) -> (r: Step)
    requires
        cache matches Some(c) ==> c.well_formed(),
    ensures
        r@ == step_of(store_of(cache), candidate@, skip),
        r matches Step::Cached(a) ==> a@.well_formed(),
{
    if skip {
        return Step::SkipUnique;
    }
    match cache {
        None => Step::Decode,
        Some(c) => match c.lookup(
            candidate.path.as_str(),
            candidate.size,
            candidate.modified_secs,
        ) {
            Some(a) => Step::Cached(a),
            None => Step::Decode,
        },
    }
}

/// Counts the candidates that need no decoding, which is where the
/// count of progress starts.
pub fn initial_processed(
    candidates: &Vec<Candidate>,
    skips: &Vec<bool>,
    cache: Option<&ResumeCache>,
) -> (r: usize)
    requires
        skips.len() == candidates.len(),
        cache matches Some(c) ==> c.well_formed(),
    ensures
        r == settled_count(store_of(cache), candidate_views(candidates@), skips@),
        r <= candidates.len(),
{
    let ghost all = candidate_views(candidates@);
    let ghost store = store_of(cache);
    let mut r: usize = 0;
    let mut i: usize = 0;
    assert(all.subrange(0, 0).len() == 0);
    while i < candidates.len()
        invariant
            i <= candidates.len(),
            skips.len() == candidates.len(),
            all == candidate_views(candidates@),
            store == store_of(cache),
            cache matches Some(c) ==> c.well_formed(),
            r <= i,
            r == settled_count(store, all.subrange(0, i as int), skips@.subrange(0, i as int)),
        decreases candidates.len() - i,
    {
        proof {
            let next = all.subrange(0, i as int + 1);
            let flags = skips@.subrange(0, i as int + 1);
            assert(next.drop_last() =~= all.subrange(0, i as int));
            assert(flags.drop_last() =~= skips@.subrange(0, i as int));
            assert(next.last() == candidates@[i as int]@);
            assert(flags.last() == skips@[i as int]);
        }
        match plan(&candidates[i], skips[i], cache) {
            Step::Decode => {},
            _ => {
                r += 1;
            },
        }
        i += 1;
    }
    assert(all.subrange(0, candidates.len() as int) =~= all);
    assert(skips@.subrange(0, skips.len() as int) =~= skips@);
    r
}

/// Stamps a record with the size and the modification time of the
/// candidate it was made of.
pub fn stamp(candidate: &Candidate, audio_file: AudioFile) -> (r: AudioFile)
    ensures
        r@ == stamped(audio_file@, candidate@),
{
    let mut r = audio_file;
    r.file_size = candidate.size;
    r.modified_secs = candidate.modified_secs;
    r
}

/// The outcome of decoding as a mathematical value.
pub open spec fn decoded_view(outcome: Result<AudioFile, ProcessError>) -> Result<
    AudioRecord,
    ProcessError,
> {
    match outcome {
        Ok(a) => Ok(a@),
        Err(e) => Err(e),
    }
}

/// What the scan does with the outcome of decoding a candidate.
#[derive(Debug, PartialEq, Eq)]
pub struct Completed {
    /// The record to hand on, if decoding gave one.
    pub emitted: Option<AudioFile>,
    /// The error to report, if decoding failed.
    pub error: Option<ProcessError>,
    /// Whether the cache is due to be saved.
    pub checkpoint: bool,
}

/// Takes in the outcome of decoding a candidate: a record is stamped,
/// kept in the cache and handed on; an error is reported and changes
/// nothing.
pub fn complete(
    candidate: &Candidate,
    outcome: Result<AudioFile, ProcessError>,
    cache: &mut ResumeCache,
) -> (r: Completed)
    requires
        old(cache).well_formed(),
    ensures
        final(cache).well_formed(),
        final(cache).location() == old(cache).location(),
        final(cache).checkpoint_every() == old(cache).checkpoint_every(),
        match decoded_view(outcome) {
            Ok(record) => {
                &&& r.emitted matches Some(a) && a@ == stamped(record, candidate@)
                &&& r.error.is_none()
                &&& final(cache)@ == store_in(
                    old(cache)@,
                    stamped(record, candidate@),
                    candidate.size,
                    candidate.modified_secs,
                )
                &&& r.checkpoint == checkpoint_due(
                    old(cache).pending_count(),
                    old(cache).checkpoint_every(),
                )
                &&& final(cache).pending_count() == (if r.checkpoint {
                    0
                } else {
                    old(cache).pending_count() + 1
                })
            },
            Err(e) => {
                &&& r.emitted.is_none()
                &&& r.error == Some(e)
                &&& !r.checkpoint
                &&& final(cache)@ == old(cache)@
                &&& final(cache).pending_count() == old(cache).pending_count()
            },
        },
{
    match outcome {
        Ok(audio_file) => {
            let record: AudioFile = stamp(candidate, audio_file);
            let checkpoint: bool = cache.store(
                record.clone(),
                candidate.size,
                candidate.modified_secs,
            );
            Completed { emitted: Some(record), error: None, checkpoint }
        },
        Err(e) => Completed { emitted: None, error: Some(e), checkpoint: false },
    }
}

/// The store after the candidates have been dealt with one after
/// another, `outcomes` being what decoding gives for each of them.
pub open spec fn scan_store(
    store: Map<Seq<char>, CachedRecord>,
    candidates: Seq<CandidateView>,
    skips: Seq<bool>,
    outcomes: Seq<Option<Result<AudioRecord, ProcessError>>>,
) -> Map<Seq<char>, CachedRecord>
    decreases candidates.len(),
{
    if candidates.len() == 0 {
        store
    } else {
        store_after(
            scan_store(store, candidates.drop_last(), skips.drop_last(), outcomes.drop_last()),
            candidates.last(),
            skips.last(),
            outcomes.last(),
        )
    }
}

/// What the scan hands on for each candidate, in their order.
pub open spec fn scan_emitted(
    store: Map<Seq<char>, CachedRecord>,
    candidates: Seq<CandidateView>,
    skips: Seq<bool>,
    outcomes: Seq<Option<Result<AudioRecord, ProcessError>>>,
) -> Seq<Option<AudioRecord>>
    decreases candidates.len(),
{
    if candidates.len() == 0 {
        Seq::empty()
    } else {
        scan_emitted(
            store,
            candidates.drop_last(),
            skips.drop_last(),
            outcomes.drop_last(),
        ).push(
            emitted_of(
                Some(
                    scan_store(
                        store,
                        candidates.drop_last(),
                        skips.drop_last(),
                        outcomes.drop_last(),
                    ),
                ),
                candidates.last(),
                skips.last(),
                outcomes.last(),
            ),
        )
    }
}

/// The error that the scan reports for a candidate, if any: the one
/// that decoding gave.
pub open spec fn error_of(
    store: Option<Map<Seq<char>, CachedRecord>>,
    candidate: CandidateView,
    skip: bool,
    outcome: Option<Result<AudioRecord, ProcessError>>,
) -> Option<ProcessError> {
    match step_of(store, candidate, skip) {
        StepView::Decode => match outcome {
            Some(Err(e)) => Some(e),
            _ => None,
        },
        _ => None,
    }
}

/// Whether the scan puts a record of the candidate in the store.
pub open spec fn is_stored(
    store: Map<Seq<char>, CachedRecord>,
    candidate: CandidateView,
    skip: bool,
    outcome: Option<Result<AudioRecord, ProcessError>>,
) -> bool {
    step_of(Some(store), candidate, skip) is Decode && outcome matches Some(Ok(_))
}

/// The errors that the scan reports, each with the path of its file, in
/// the order of the candidates.
pub open spec fn scan_errors(
    store: Map<Seq<char>, CachedRecord>,
    candidates: Seq<CandidateView>,
    skips: Seq<bool>,
    outcomes: Seq<Option<Result<AudioRecord, ProcessError>>>,
) -> Seq<(Seq<char>, ProcessError)>
    decreases candidates.len(),
{
    if candidates.len() == 0 {
        Seq::empty()
    } else {
        let before = scan_errors(
            store,
            candidates.drop_last(),
            skips.drop_last(),
            outcomes.drop_last(),
        );
        match error_of(
            Some(
                scan_store(store, candidates.drop_last(), skips.drop_last(), outcomes.drop_last()),
            ),
            candidates.last(),
            skips.last(),
            outcomes.last(),
        ) {
            Some(e) => before.push((candidates.last().path, e)),
            None => before,
        }
    }
}

/// How many records the scan puts in the store.
pub open spec fn stored_count(
    store: Map<Seq<char>, CachedRecord>,
    candidates: Seq<CandidateView>,
    skips: Seq<bool>,
    outcomes: Seq<Option<Result<AudioRecord, ProcessError>>>,
) -> nat
    decreases candidates.len(),
{
    if candidates.len() == 0 {
        0
    } else {
        stored_count(store, candidates.drop_last(), skips.drop_last(), outcomes.drop_last())
            + if is_stored(
            scan_store(store, candidates.drop_last(), skips.drop_last(), outcomes.drop_last()),
            candidates.last(),
            skips.last(),
            outcomes.last(),
        ) {
            1nat
        } else {
            0nat
        }
    }
}

/// The records that are handed on, in order: those that are there.
pub open spec fn handed_on(emitted: Seq<Option<AudioRecord>>) -> Seq<AudioRecord>
    decreases emitted.len(),
{
    if emitted.len() == 0 {
        Seq::empty()
    } else {
        match emitted.last() {
            Some(a) => handed_on(emitted.drop_last()).push(a),
            None => handed_on(emitted.drop_last()),
        }
    }
}

/// The count of pending insertions after `insertions` more, starting
/// from `pending`: it goes up by one with each, and back to 0 when a
/// checkpoint is due.
pub open spec fn pending_after(pending: usize, save_every: usize, insertions: nat) -> usize
    decreases insertions,
{
    if insertions == 0 {
        pending
    } else {
        let before = pending_after(pending, save_every, (insertions - 1) as nat);
        if checkpoint_due(before, save_every) {
            0
        } else {
            (before + 1) as usize
        }
    }
}

/// Whether a checkpoint falls due at one of `insertions` insertions,
/// starting from `pending`.
pub open spec fn checkpoint_within(pending: usize, save_every: usize, insertions: nat) -> bool
    decreases insertions,
{
    if insertions == 0 {
        false
    } else {
        checkpoint_within(pending, save_every, (insertions - 1) as nat) || checkpoint_due(
            pending_after(pending, save_every, (insertions - 1) as nat),
            save_every,
        )
    }
}

/// What decoding gave for each candidate, as mathematical values.
pub open spec fn outcome_views(outcomes: Seq<Option<Result<AudioFile, ProcessError>>>) -> Seq<
    Option<Result<AudioRecord, ProcessError>>,
> {
    outcomes.map_values(
        |o: Option<Result<AudioFile, ProcessError>>|
            match o {
                Some(r) => Some(decoded_view(r)),
                None => None,
            },
    )
}

/// The errors with the paths of their files, as mathematical values.
pub open spec fn error_views(errors: Seq<(String, ProcessError)>) -> Seq<(Seq<char>, ProcessError)> {
    errors.map_values(|e: (String, ProcessError)| (e.0@, e.1))
}

/// What a scan gives.
#[derive(Debug, PartialEq, Eq)]
pub struct ScanReport {
    /// The records handed on, in the order of their candidates.
    pub emitted: Vec<AudioFile>,
    /// The errors, each with the path of its file.
    pub errors: Vec<(String, ProcessError)>,
    /// Whether a checkpoint fell due: the cache is then to be saved.
    pub checkpoint: bool,
}

/// For each candidate, whether it is to be decoded.
pub fn to_decode(candidates: &Vec<Candidate>, skips: &Vec<bool>, cache: Option<&ResumeCache>) -> (r:
    Vec<bool>)
    requires
        skips.len() == candidates.len(),
        cache matches Some(c) ==> c.well_formed(),
    ensures
        r.len() == candidates.len(),
        forall|i: int|
            0 <= i < r.len() ==> r@[i] == (step_of(
                store_of(cache),
                (#[trigger] candidates@[i])@,
                skips@[i],
            ) is Decode),
{
    let mut r: Vec<bool> = Vec::new();
    let mut i: usize = 0;
    while i < candidates.len()
        invariant
            i <= candidates.len(),
            skips.len() == candidates.len(),
            cache matches Some(c) ==> c.well_formed(),
            r.len() == i,
            forall|k: int|
                0 <= k < i ==> r@[k] == (step_of(
                    store_of(cache),
                    (#[trigger] candidates@[k])@,
                    skips@[k],
                ) is Decode),
        decreases candidates.len() - i,
    {
        let decode: bool = match plan(&candidates[i], skips[i], cache) {
            Step::Decode => true,
            _ => false,
        };
        r.push(decode);
        i += 1;
    }
    r
}

/// Runs a scan over the candidates, with what decoding gave for those
/// that were decoded: each candidate is passed over, served from the
/// cache, or its decoded record is stamped and kept; a candidate that
/// is to be decoded and was not is left out.
pub fn scan_all(
    candidates: &Vec<Candidate>,
    skips: &Vec<bool>,
    outcomes: &Vec<Option<Result<AudioFile, ProcessError>>>,
    cache: &mut ResumeCache,
) -> (r: ScanReport)
    requires
        skips.len() == candidates.len(),
        outcomes.len() == candidates.len(),
        old(cache).well_formed(),
    ensures
        final(cache).well_formed(),
        final(cache).location() == old(cache).location(),
        final(cache).checkpoint_every() == old(cache).checkpoint_every(),
        final(cache)@ == scan_store(
            old(cache)@,
            candidate_views(candidates@),
            skips@,
            outcome_views(outcomes@),
        ),
        record_views(r.emitted@) == handed_on(
            scan_emitted(
                old(cache)@,
                candidate_views(candidates@),
                skips@,
                outcome_views(outcomes@),
            ),
        ),
        error_views(r.errors@) == scan_errors(
            old(cache)@,
            candidate_views(candidates@),
            skips@,
            outcome_views(outcomes@),
        ),
        r.checkpoint == checkpoint_within(
            old(cache).pending_count(),
            old(cache).checkpoint_every(),
            stored_count(
                old(cache)@,
                candidate_views(candidates@),
                skips@,
                outcome_views(outcomes@),
            ),
        ),
        final(cache).pending_count() == pending_after(
            old(cache).pending_count(),
            old(cache).checkpoint_every(),
            stored_count(
                old(cache)@,
                candidate_views(candidates@),
                skips@,
                outcome_views(outcomes@),
            ),
        ),
{
    let ghost start = cache@;
    let ghost pending = cache.pending_count();
    let ghost every = cache.checkpoint_every();
    let ghost all = candidate_views(candidates@);
    let ghost given = outcome_views(outcomes@);
    let mut emitted: Vec<AudioFile> = Vec::new();
    let mut errors: Vec<(String, ProcessError)> = Vec::new();
    let mut checkpoint: bool = false;
    let mut i: usize = 0;
    proof {
        assert(all.subrange(0, 0) =~= Seq::<CandidateView>::empty());
        assert(record_views(emitted@) =~= Seq::<AudioRecord>::empty());
        assert(error_views(errors@) =~= Seq::<(Seq<char>, ProcessError)>::empty());
    }
    while i < candidates.len()
        invariant
            i <= candidates.len(),
            skips.len() == candidates.len(),
            outcomes.len() == candidates.len(),
            all == candidate_views(candidates@),
            given == outcome_views(outcomes@),
            cache.well_formed(),
            cache.location() == old(cache).location(),
            cache.checkpoint_every() == every,
            cache@ == scan_store(
                start,
                all.subrange(0, i as int),
                skips@.subrange(0, i as int),
                given.subrange(0, i as int),
            ),
            record_views(emitted@) == handed_on(
                scan_emitted(
                    start,
                    all.subrange(0, i as int),
                    skips@.subrange(0, i as int),
                    given.subrange(0, i as int),
                ),
            ),
            error_views(errors@) == scan_errors(
                start,
                all.subrange(0, i as int),
                skips@.subrange(0, i as int),
                given.subrange(0, i as int),
            ),
            checkpoint == checkpoint_within(
                pending,
                every,
                stored_count(
                    start,
                    all.subrange(0, i as int),
                    skips@.subrange(0, i as int),
                    given.subrange(0, i as int),
                ),
            ),
            cache.pending_count() == pending_after(
                pending,
                every,
                stored_count(
                    start,
                    all.subrange(0, i as int),
                    skips@.subrange(0, i as int),
                    given.subrange(0, i as int),
                ),
            ),
        decreases candidates.len() - i,
    {
        proof {
            assert(all.subrange(0, i as int + 1).drop_last() =~= all.subrange(0, i as int));
            assert(skips@.subrange(0, i as int + 1).drop_last() =~= skips@.subrange(0, i as int));
            assert(given.subrange(0, i as int + 1).drop_last() =~= given.subrange(0, i as int));
            assert(all.subrange(0, i as int + 1).last() == candidates@[i as int]@);
            assert(skips@.subrange(0, i as int + 1).last() == skips@[i as int]);
            assert(given.subrange(0, i as int + 1).last() == given[i as int]);
            let earlier = scan_emitted(
                start,
                all.subrange(0, i as int),
                skips@.subrange(0, i as int),
                given.subrange(0, i as int),
            );
            let next = emitted_of(Some(cache@), candidates@[i as int]@, skips@[i as int], given[i as int]);
            assert(earlier.push(next).drop_last() =~= earlier);
            assert(earlier.push(next).last() == next);
        }
        let ghost seen = record_views(emitted@);
        let ghost told = error_views(errors@);
        let candidate: &Candidate = &candidates[i];
        match plan(candidate, skips[i], Some(&*cache)) {
            Step::SkipUnique => {},
            Step::Cached(audio_file) => {
                emitted.push(audio_file);
                assert(record_views(emitted@) =~= seen.push(audio_file@));
            },
            Step::Decode => match &outcomes[i] {
                None => {},
                Some(Ok(audio_file)) => {
                    let done: Completed = complete(candidate, Ok(audio_file.clone()), cache);
                    if done.checkpoint {
                        checkpoint = true;
                    }
                    match done.emitted {
                        Some(record) => {
                            emitted.push(record);
                            assert(record_views(emitted@) =~= seen.push(record@));
                        },
                        None => {},
                    }
                },
                Some(Err(e)) => {
                    errors.push((candidate.path.clone(), *e));
                    assert(error_views(errors@) =~= told.push((candidate@.path, *e)));
                },
            },
        }
        i += 1;
    }
    proof {
        assert(all.subrange(0, candidates.len() as int) =~= all);
        assert(skips@.subrange(0, candidates.len() as int) =~= skips@);
        assert(given.subrange(0, candidates.len() as int) =~= given);
    }
    ScanReport { emitted, errors, checkpoint }
}

/// What a scan without a cache hands on for each candidate.
pub open spec fn plain_emitted(
    candidates: Seq<CandidateView>,
    skips: Seq<bool>,
    outcomes: Seq<Option<Result<AudioRecord, ProcessError>>>,
) -> Seq<Option<AudioRecord>> {
    Seq::new(candidates.len(), |i: int| emitted_of(None, candidates[i], skips[i], outcomes[i]))
}

/// The errors that a scan without a cache reports, each with the path
/// of its file, in the order of the candidates.
pub open spec fn plain_errors(
    candidates: Seq<CandidateView>,
    skips: Seq<bool>,
    outcomes: Seq<Option<Result<AudioRecord, ProcessError>>>,
) -> Seq<(Seq<char>, ProcessError)>
    decreases candidates.len(),
{
    if candidates.len() == 0 {
        Seq::empty()
    } else {
        let before = plain_errors(candidates.drop_last(), skips.drop_last(), outcomes.drop_last());
        match error_of(None, candidates.last(), skips.last(), outcomes.last()) {
            Some(e) => before.push((candidates.last().path, e)),
            None => before,
        }
    }
}

/// Runs a scan without a cache over the candidates, with what decoding
/// gave for those that were decoded: each candidate is passed over, or
/// its decoded record is stamped and handed on.
pub fn scan_uncached(
    candidates: &Vec<Candidate>,
    skips: &Vec<bool>,
    outcomes: &Vec<Option<Result<AudioFile, ProcessError>>>,
) -> (r: ScanReport)
    requires
        skips.len() == candidates.len(),
        outcomes.len() == candidates.len(),
    ensures
        record_views(r.emitted@) == handed_on(
            plain_emitted(candidate_views(candidates@), skips@, outcome_views(outcomes@)),
        ),
        error_views(r.errors@) == plain_errors(
            candidate_views(candidates@),
            skips@,
            outcome_views(outcomes@),
        ),
        !r.checkpoint,
{
    let ghost all = candidate_views(candidates@);
    let ghost given = outcome_views(outcomes@);
    let mut emitted: Vec<AudioFile> = Vec::new();
    let mut errors: Vec<(String, ProcessError)> = Vec::new();
    let mut i: usize = 0;
    proof {
        assert(plain_emitted(
            all.subrange(0, 0),
            skips@.subrange(0, 0),
            given.subrange(0, 0),
        ).len() == 0);
        assert(record_views(emitted@) =~= Seq::<AudioRecord>::empty());
        assert(error_views(errors@) =~= Seq::<(Seq<char>, ProcessError)>::empty());
    }
    while i < candidates.len()
        invariant
            i <= candidates.len(),
            skips.len() == candidates.len(),
            outcomes.len() == candidates.len(),
            all == candidate_views(candidates@),
            given == outcome_views(outcomes@),
            record_views(emitted@) == handed_on(
                plain_emitted(
                    all.subrange(0, i as int),
                    skips@.subrange(0, i as int),
                    given.subrange(0, i as int),
                ),
            ),
            error_views(errors@) == plain_errors(
                all.subrange(0, i as int),
                skips@.subrange(0, i as int),
                given.subrange(0, i as int),
            ),
        decreases candidates.len() - i,
    {
        proof {
            assert(all.subrange(0, i as int + 1).drop_last() =~= all.subrange(0, i as int));
            assert(skips@.subrange(0, i as int + 1).drop_last() =~= skips@.subrange(0, i as int));
            assert(given.subrange(0, i as int + 1).drop_last() =~= given.subrange(0, i as int));
            assert(all.subrange(0, i as int + 1).last() == candidates@[i as int]@);
            assert(skips@.subrange(0, i as int + 1).last() == skips@[i as int]);
            assert(given.subrange(0, i as int + 1).last() == given[i as int]);
            let earlier = plain_emitted(
                all.subrange(0, i as int),
                skips@.subrange(0, i as int),
                given.subrange(0, i as int),
            );
            let later = plain_emitted(
                all.subrange(0, i as int + 1),
                skips@.subrange(0, i as int + 1),
                given.subrange(0, i as int + 1),
            );
            assert(later.drop_last() =~= earlier);
            assert(later.last() == emitted_of(
                None,
                candidates@[i as int]@,
                skips@[i as int],
                given[i as int],
            ));
        }
        let ghost seen = record_views(emitted@);
        let ghost told = error_views(errors@);
        let candidate: &Candidate = &candidates[i];
        if !skips[i] {
            match &outcomes[i] {
                None => {},
                Some(Ok(audio_file)) => {
                    let record: AudioFile = stamp(candidate, audio_file.clone());
                    emitted.push(record);
                    assert(record_views(emitted@) =~= seen.push(record@));
                },
                Some(Err(e)) => {
                    errors.push((candidate.path.clone(), *e));
                    assert(error_views(errors@) =~= told.push((candidate@.path, *e)));
                },
            }
        }
        i += 1;
    }
    proof {
        assert(all.subrange(0, candidates.len() as int) =~= all);
        assert(skips@.subrange(0, candidates.len() as int) =~= skips@);
        assert(given.subrange(0, candidates.len() as int) =~= given);
    }
    ScanReport { emitted, errors, checkpoint: false }
}

/// Whether no two candidates have the same path.
pub open spec fn distinct_paths(candidates: Seq<CandidateView>) -> bool {
    forall|i: int, j: int|
        0 <= i < j < candidates.len() ==> (#[trigger] candidates[i]).path != (
        #[trigger] candidates[j]).path
}

/// Whether decoding gives a record for every candidate that is decoded
/// when the scan starts from `store`: a record under the path of the
/// candidate, with a finite RMS level.
pub open spec fn all_decodable(
    store: Map<Seq<char>, CachedRecord>,
    candidates: Seq<CandidateView>,
    skips: Seq<bool>,
    outcomes: Seq<Option<Result<AudioRecord, ProcessError>>>,
) -> bool {
    &&& skips.len() == candidates.len()
    &&& outcomes.len() == candidates.len()
    &&& forall|i: int|
        0 <= i < candidates.len() && step_of(Some(store), #[trigger] candidates[i], skips[i])
            is Decode ==> match outcomes[i] {
            Some(Ok(record)) => record.file_path == candidates[i].path && record.well_formed(),
            _ => false,
        }
}

/// A scan with nothing to decode leaves the store as it is.
pub proof fn lemma_scan_without_decoding(
    store: Map<Seq<char>, CachedRecord>,
    candidates: Seq<CandidateView>,
    skips: Seq<bool>,
    outcomes: Seq<Option<Result<AudioRecord, ProcessError>>>,
)
    requires
        skips.len() == candidates.len(),
        outcomes.len() == candidates.len(),
        forall|i: int|
            0 <= i < candidates.len() ==> !(step_of(
                Some(store),
                #[trigger] candidates[i],
                skips[i],
            ) is Decode),
    ensures
        scan_store(store, candidates, skips, outcomes) == store,
        scan_emitted(store, candidates, skips, outcomes) == Seq::new(
            candidates.len(),
            |i: int| emitted_of(Some(store), candidates[i], skips[i], outcomes[i]),
        ),
        scan_errors(store, candidates, skips, outcomes) == Seq::<(Seq<char>, ProcessError)>::empty(),
        stored_count(store, candidates, skips, outcomes) == 0,
    decreases candidates.len(),
{
    let expected = Seq::new(
        candidates.len(),
        |i: int| emitted_of(Some(store), candidates[i], skips[i], outcomes[i]),
    );
    if candidates.len() > 0 {
        let n = candidates.len() - 1;
        assert forall|i: int| 0 <= i < n implies !(step_of(
            Some(store),
            #[trigger] candidates.drop_last()[i],
            skips.drop_last()[i],
        ) is Decode) by {
            assert(candidates.drop_last()[i] == candidates[i]);
            assert(skips.drop_last()[i] == skips[i]);
        }
        lemma_scan_without_decoding(
            store,
            candidates.drop_last(),
            skips.drop_last(),
            outcomes.drop_last(),
        );
        assert(!(step_of(Some(store), candidates[n], skips[n]) is Decode));
        assert(scan_emitted(store, candidates, skips, outcomes) =~= expected);
    } else {
        assert(scan_emitted(store, candidates, skips, outcomes) =~= expected);
    }
}

/// What a scan hands on and leaves in the store, candidate by candidate,
/// where no two candidates have the same path: each candidate is dealt
/// with as if it were the first, its record is found in the store
/// afterwards, and the store is unchanged under every other path.
pub proof fn lemma_first_scan(
    store: Map<Seq<char>, CachedRecord>,
    candidates: Seq<CandidateView>,
    skips: Seq<bool>,
    outcomes: Seq<Option<Result<AudioRecord, ProcessError>>>,
)
    requires
        distinct_paths(candidates),
        all_decodable(store, candidates, skips, outcomes),
    ensures
        scan_emitted(store, candidates, skips, outcomes) == Seq::new(
            candidates.len(),
            |i: int| emitted_of(Some(store), candidates[i], skips[i], outcomes[i]),
        ),
        forall|i: int|
            0 <= i < candidates.len() && !skips[i] ==> lookup_in(
                scan_store(store, candidates, skips, outcomes),
                (#[trigger] candidates[i]).path,
                candidates[i].size,
                candidates[i].modified_secs,
            ) == emitted_of(Some(store), candidates[i], skips[i], outcomes[i]),
        forall|path: Seq<char>|
            (forall|i: int| 0 <= i < candidates.len() ==> (#[trigger] candidates[i]).path != path)
                ==> #[trigger] scan_store(store, candidates, skips, outcomes).contains_key(path)
                == store.contains_key(path) && scan_store(store, candidates, skips, outcomes)[path]
                == store[path],
    decreases candidates.len(),
{
    let expected = Seq::new(
        candidates.len(),
        |i: int| emitted_of(Some(store), candidates[i], skips[i], outcomes[i]),
    );
    if candidates.len() == 0 {
        assert(scan_emitted(store, candidates, skips, outcomes) =~= expected);
    } else {
        let n = candidates.len() - 1;
        let init = candidates.drop_last();
        let before = scan_store(store, init, skips.drop_last(), outcomes.drop_last());
        let after = scan_store(store, candidates, skips, outcomes);
        let last = candidates[n];
        assert(distinct_paths(init)) by {
            assert forall|i: int, j: int| 0 <= i < j < init.len() implies (#[trigger] init[i]).path
                != (#[trigger] init[j]).path by {
                assert(init[i] == candidates[i] && init[j] == candidates[j]);
            }
        }
        assert(all_decodable(store, init, skips.drop_last(), outcomes.drop_last())) by {
            assert forall|i: int|
                0 <= i < init.len() && step_of(
                    Some(store),
                    #[trigger] init[i],
                    skips.drop_last()[i],
                ) is Decode implies match outcomes.drop_last()[i] {
                Some(Ok(record)) => record.file_path == init[i].path && record.well_formed(),
                _ => false,
            } by {
                assert(outcomes.drop_last()[i] == outcomes[i]);
                assert(skips.drop_last()[i] == skips[i]);
                assert(init[i] == candidates[i]);
            }
        }
        lemma_first_scan(store, init, skips.drop_last(), outcomes.drop_last());
        assert forall|i: int| 0 <= i < init.len() implies (#[trigger] init[i]).path
            != last.path by {
            assert(init[i] == candidates[i]);
        }
        assert(before.contains_key(last.path) == store.contains_key(last.path));
        assert(before[last.path] == store[last.path]);
        assert(step_of(Some(before), last, skips[n]) == step_of(Some(store), last, skips[n]));
        assert(scan_emitted(store, candidates, skips, outcomes) =~= expected) by {
            let first = scan_emitted(store, init, skips.drop_last(), outcomes.drop_last());
            assert forall|i: int| 0 <= i < n implies first[i] == expected[i] by {
                assert(init[i] == candidates[i]);
                assert(skips.drop_last()[i] == skips[i]);
                assert(outcomes.drop_last()[i] == outcomes[i]);
            }
        }
        if step_of(Some(store), last, skips[n]) is Decode {
            let record = outcomes[n]->Some_0->Ok_0;
            assert(outcomes[n] matches Some(Ok(_)) && record.file_path == last.path
                && record.well_formed());
            assert(crate::fingerprint::cleaned_bits(record.rms_db_level) == record.rms_db_level);
            assert(cleaned(stamped(record, last)) == stamped(record, last));
        }
        assert forall|i: int| 0 <= i < candidates.len() && !skips[i] implies lookup_in(
            after,
            (#[trigger] candidates[i]).path,
            candidates[i].size,
            candidates[i].modified_secs,
        ) == emitted_of(Some(store), candidates[i], skips[i], outcomes[i]) by {
            if i < n {
                assert(init[i] == candidates[i]);
                assert(skips.drop_last()[i] == skips[i]);
                assert(outcomes.drop_last()[i] == outcomes[i]);
                assert(candidates[i].path != candidates[n].path);
            }
        }
        assert forall|path: Seq<char>|
            (forall|i: int|
                0 <= i < candidates.len() ==> (#[trigger] candidates[i]).path
                    != path) implies #[trigger] after.contains_key(path) == store.contains_key(path)
            && after[path] == store[path] by {
            assert forall|i: int| 0 <= i < init.len() implies (#[trigger] init[i]).path
                != path by {
                assert(init[i] == candidates[i]);
            }
            assert(candidates[n].path != path);
            assert(before.contains_key(path) == store.contains_key(path));
        }
    }
}

/// Resuming is idempotent. Take a set of files, each at a path of its
/// own, and scan it, every file that is to be decoded giving a record;
/// then scan the same set again, with the store that the first scan
/// left. In the second scan no file is to be decoded, whatever decoding
/// would give; the scan leaves the store as it is, reports no error,
/// and hands on the same records as the first.
pub proof fn lemma_resume_idempotent(
    store: Map<Seq<char>, CachedRecord>,
    candidates: Seq<CandidateView>,
    skips: Seq<bool>,
    outcomes: Seq<Option<Result<AudioRecord, ProcessError>>>,
    again: Seq<Option<Result<AudioRecord, ProcessError>>>,
)
    requires
        again.len() == candidates.len(),
        distinct_paths(candidates),
        all_decodable(store, candidates, skips, outcomes),
    ensures
        ({
            let kept = scan_store(store, candidates, skips, outcomes);
            &&& forall|i: int|
                0 <= i < candidates.len() ==> !(step_of(
                    Some(kept),
                    #[trigger] candidates[i],
                    skips[i],
                ) is Decode)
            &&& decode_count(Some(kept), candidates, skips) == 0
            &&& scan_store(kept, candidates, skips, again) == kept
            &&& scan_emitted(kept, candidates, skips, again) == scan_emitted(
                store,
                candidates,
                skips,
                outcomes,
            )
            &&& scan_errors(kept, candidates, skips, again) == Seq::<
                (Seq<char>, ProcessError),
            >::empty()
            &&& stored_count(kept, candidates, skips, again) == 0
        }),
{
    let kept = scan_store(store, candidates, skips, outcomes);
    lemma_first_scan(store, candidates, skips, outcomes);
    assert forall|i: int| 0 <= i < candidates.len() implies !(step_of(
        Some(kept),
        #[trigger] candidates[i],
        skips[i],
    ) is Decode) && emitted_of(Some(kept), candidates[i], skips[i], again[i]) == emitted_of(
        Some(store),
        candidates[i],
        skips[i],
        outcomes[i],
    ) by {
        if !skips[i] {
            assert(lookup_in(
                kept,
                candidates[i].path,
                candidates[i].size,
                candidates[i].modified_secs,
            ) == emitted_of(Some(store), candidates[i], skips[i], outcomes[i]));
        }
    }
    lemma_scan_without_decoding(kept, candidates, skips, again);
    lemma_no_decoding_count(Some(kept), candidates, skips);
    assert(scan_emitted(kept, candidates, skips, again) =~= scan_emitted(
        store,
        candidates,
        skips,
        outcomes,
    ));
}

/// Where no candidate is decoded, the count of those decoded is 0.
pub proof fn lemma_no_decoding_count(
    store: Option<Map<Seq<char>, CachedRecord>>,
    candidates: Seq<CandidateView>,
    skips: Seq<bool>,
)
    requires
        skips.len() == candidates.len(),
        forall|i: int|
            0 <= i < candidates.len() ==> !(step_of(store, #[trigger] candidates[i], skips[i])
                is Decode),
    ensures
        decode_count(store, candidates, skips) == 0,
    decreases candidates.len(),
{
    if candidates.len() > 0 {
        let n = candidates.len() - 1;
        assert forall|i: int| 0 <= i < n implies !(step_of(
            store,
            #[trigger] candidates.drop_last()[i],
            skips.drop_last()[i],
        ) is Decode) by {
            assert(candidates.drop_last()[i] == candidates[i]);
            assert(skips.drop_last()[i] == skips[i]);
        }
        lemma_no_decoding_count(store, candidates.drop_last(), skips.drop_last());
        assert(!(step_of(store, candidates[n], skips[n]) is Decode));
    }
}

} // verus!
