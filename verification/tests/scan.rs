use fadupes::scan::{
    complete, initial_processed, plan, scan_all, scan_uncached, stamp, to_decode, Completed,
    ScanReport, Step,
};
use fadupes::walker::{unique_sizes, Candidate};
use fadupes::{AudioFile, ProcessError, ResumeCache};

fn candidate(path: &str, size: u64, secs: u64) -> Candidate {
    Candidate { path: path.to_string(), size, modified_secs: secs }
}

fn decoded(path: &str, samples: u64) -> AudioFile {
    let mut a = AudioFile::default();
    a.file_path = path.to_string();
    a.total_samples = samples;
    a.sample_rate = 44100;
    a.bit_depth = 16;
    a.channels = 1;
    a.peak_level = 0.5f32.to_bits();
    a.rms_db_level = (-9.0f64).to_bits();
    a
}

fn stamped(path: &str, samples: u64, size: u64, secs: u64) -> AudioFile {
    let mut a = decoded(path, samples);
    a.file_size = size;
    a.modified_secs = secs;
    a
}

#[test]
fn a_candidate_of_unique_size_is_passed_over() {
    let mut cache = ResumeCache::new("s".to_string(), 10);
    cache.store(stamped("a.wav", 5, 100, 1), 100, 1);
    let c = candidate("a.wav", 100, 1);
    assert_eq!(plan(&c, true, Some(&cache)), Step::SkipUnique);
    assert_eq!(plan(&c, true, None), Step::SkipUnique);
}

#[test]
fn a_cached_candidate_is_not_decoded() {
    let mut cache = ResumeCache::new("s".to_string(), 10);
    cache.store(stamped("a.wav", 5, 100, 1), 100, 1);
    assert_eq!(
        plan(&candidate("a.wav", 100, 1), false, Some(&cache)),
        Step::Cached(stamped("a.wav", 5, 100, 1))
    );
}

#[test]
fn a_changed_or_unknown_candidate_is_decoded() {
    let mut cache = ResumeCache::new("s".to_string(), 10);
    cache.store(stamped("a.wav", 5, 100, 1), 100, 1);
    assert_eq!(plan(&candidate("a.wav", 101, 1), false, Some(&cache)), Step::Decode);
    assert_eq!(plan(&candidate("a.wav", 100, 2), false, Some(&cache)), Step::Decode);
    assert_eq!(plan(&candidate("b.wav", 100, 1), false, Some(&cache)), Step::Decode);
    assert_eq!(plan(&candidate("a.wav", 100, 1), false, None), Step::Decode);
}

#[test]
fn stamping_sets_size_and_time() {
    let c = candidate("a.wav", 100, 7);
    assert_eq!(stamp(&c, decoded("a.wav", 5)), stamped("a.wav", 5, 100, 7));
}

#[test]
fn a_decoded_record_is_kept_and_handed_on() {
    let mut cache = ResumeCache::new("s".to_string(), 2);
    let c = candidate("a.wav", 100, 7);
    let done = complete(&c, Ok(decoded("a.wav", 5)), &mut cache);
    assert_eq!(
        done,
        Completed { emitted: Some(stamped("a.wav", 5, 100, 7)), error: None, checkpoint: false }
    );
    assert_eq!(cache.lookup("a.wav", 100, 7), Some(stamped("a.wav", 5, 100, 7)));
    let d = candidate("b.wav", 200, 8);
    let done = complete(&d, Ok(decoded("b.wav", 6)), &mut cache);
    assert!(done.checkpoint);
    assert_eq!(cache.pending(), 0);
}

#[test]
fn a_failed_decode_is_reported_and_changes_nothing() {
    let mut cache = ResumeCache::new("s".to_string(), 1);
    let c = candidate("a.wav", 100, 7);
    let done = complete(&c, Err(ProcessError::NonFlacError), &mut cache);
    assert_eq!(
        done,
        Completed { emitted: None, error: Some(ProcessError::NonFlacError), checkpoint: false }
    );
    assert_eq!(cache.len(), 0);
    assert_eq!(cache.pending(), 0);
    assert_eq!(plan(&c, false, Some(&cache)), Step::Decode);
}

#[test]
fn progress_starts_at_what_needs_no_decoding() {
    let mut cache = ResumeCache::new("s".to_string(), 10);
    cache.store(stamped("b.wav", 5, 20, 1), 20, 1);
    let cands = vec![
        candidate("a.wav", 10, 1),
        candidate("b.wav", 20, 1),
        candidate("c.wav", 20, 1),
        candidate("d.wav", 30, 1),
    ];
    let unique = unique_sizes(&cands);
    assert_eq!(unique, vec![true, false, false, true]);
    assert_eq!(initial_processed(&cands, &unique, Some(&cache)), 3);
    assert_eq!(initial_processed(&cands, &unique, None), 2);
    let none = vec![false; 4];
    assert_eq!(initial_processed(&cands, &none, Some(&cache)), 1);
    assert_eq!(initial_processed(&cands, &none, None), 0);
    assert_eq!(initial_processed(&Vec::new(), &Vec::new(), None), 0);
}

#[test]
fn every_candidate_is_counted_once() {
    let mut cache = ResumeCache::new("s".to_string(), 10);
    cache.store(stamped("b.wav", 5, 20, 1), 20, 1);
    let cands = vec![
        candidate("a.wav", 10, 1),
        candidate("b.wav", 20, 1),
        candidate("c.wav", 20, 1),
        candidate("d.wav", 30, 1),
    ];
    let skips = unique_sizes(&cands);
    let settled = initial_processed(&cands, &skips, Some(&cache));
    let mut decoded_count = 0;
    for (c, s) in cands.iter().zip(skips.iter()) {
        if plan(c, *s, Some(&cache)) == Step::Decode {
            decoded_count += 1;
        }
    }
    assert_eq!(settled + decoded_count, cands.len());
}

#[test]
fn a_second_scan_decodes_nothing_and_hands_on_the_same_records() {
    let cands = vec![
        candidate("a.wav", 10, 1),
        candidate("b.wav", 20, 2),
        candidate("c.wav", 20, 3),
    ];
    let skips = vec![false, false, false];
    let mut cache = ResumeCache::new("s".to_string(), 2);
    cache.store(stamped("b.wav", 9, 20, 2), 20, 2);
    let mut first = Vec::new();
    let mut decodes = 0;
    for (c, s) in cands.iter().zip(skips.iter()) {
        match plan(c, *s, Some(&cache)) {
            Step::SkipUnique => {}
            Step::Cached(a) => first.push(a),
            Step::Decode => {
                decodes += 1;
                let done = complete(c, Ok(decoded(&c.path, 7)), &mut cache);
                first.push(done.emitted.unwrap());
            }
        }
    }
    assert_eq!(decodes, 2);
    let before = cache.save();
    let mut second = Vec::new();
    for (c, s) in cands.iter().zip(skips.iter()) {
        match plan(c, *s, Some(&cache)) {
            Step::SkipUnique => {}
            Step::Cached(a) => second.push(a),
            Step::Decode => panic!("decoded again: {}", c.path),
        }
    }
    assert_eq!(first, second);
    assert_eq!(cache.save(), before);
    assert_eq!(initial_processed(&cands, &skips, Some(&cache)), 3);
}

fn four() -> Vec<Candidate> {
    vec![
        candidate("a.wav", 10, 1),
        candidate("b.wav", 20, 2),
        candidate("c.wav", 20, 3),
        candidate("d.wav", 30, 4),
    ]
}

#[test]
fn what_is_to_be_decoded_is_what_is_neither_passed_over_nor_cached() {
    let mut cache = ResumeCache::new("s".to_string(), 10);
    cache.store(stamped("b.wav", 5, 20, 2), 20, 2);
    cache.store(stamped("c.wav", 5, 21, 3), 21, 3);
    let skips = vec![true, false, false, false];
    assert_eq!(to_decode(&four(), &skips, Some(&cache)), vec![false, false, true, true]);
    assert_eq!(to_decode(&four(), &skips, None), vec![false, true, true, true]);
    assert_eq!(to_decode(&Vec::new(), &Vec::new(), None), Vec::<bool>::new());
}

#[test]
fn a_scan_serves_keeps_reports_and_leaves_out() {
    let mut cache = ResumeCache::new("s".to_string(), 10);
    cache.store(stamped("b.wav", 5, 20, 2), 20, 2);
    let skips = vec![true, false, false, false];
    let outcomes = vec![
        Some(Ok(decoded("a.wav", 1))),
        Some(Err(ProcessError::IoError)),
        Some(Err(ProcessError::NoSamplesFound)),
        Some(Ok(decoded("d.wav", 4))),
    ];
    let report = scan_all(&four(), &skips, &outcomes, &mut cache);
    assert_eq!(
        report,
        ScanReport {
            emitted: vec![stamped("b.wav", 5, 20, 2), stamped("d.wav", 4, 30, 4)],
            errors: vec![("c.wav".to_string(), ProcessError::NoSamplesFound)],
            checkpoint: false,
        }
    );
    assert_eq!(cache.len(), 2);
    assert_eq!(cache.lookup("d.wav", 30, 4), Some(stamped("d.wav", 4, 30, 4)));
    assert_eq!(cache.lookup("a.wav", 10, 1), None);
    assert_eq!(cache.lookup("c.wav", 20, 3), None);
    assert_eq!(cache.pending(), 2);
}

#[test]
fn a_candidate_that_was_not_decoded_is_left_out() {
    let mut cache = ResumeCache::new("s".to_string(), 10);
    let skips = vec![false; 4];
    let outcomes = vec![Some(Ok(decoded("a.wav", 1))), None, None, None];
    let report = scan_all(&four(), &skips, &outcomes, &mut cache);
    assert_eq!(report.emitted, vec![stamped("a.wav", 1, 10, 1)]);
    assert_eq!(report.errors, Vec::new());
    assert_eq!(cache.len(), 1);
    assert_eq!(to_decode(&four(), &skips, Some(&cache)), vec![false, true, true, true]);
}

#[test]
fn a_scan_says_when_a_checkpoint_fell_due() {
    let skips = vec![false; 4];
    let outcomes: Vec<_> =
        four().iter().map(|c| Some(Ok(decoded(&c.path, 1)))).collect();
    let mut cache = ResumeCache::new("s".to_string(), 3);
    assert!(scan_all(&four(), &skips, &outcomes, &mut cache).checkpoint);
    assert_eq!(cache.pending(), 1);
    let mut cache = ResumeCache::new("s".to_string(), 5);
    assert!(!scan_all(&four(), &skips, &outcomes, &mut cache).checkpoint);
    assert_eq!(cache.pending(), 4);
    let mut cache = ResumeCache::new("s".to_string(), 4);
    assert!(scan_all(&four(), &skips, &outcomes, &mut cache).checkpoint);
    assert_eq!(cache.pending(), 0);
    assert!(!scan_all(&four(), &skips, &outcomes, &mut cache).checkpoint);
    assert_eq!(cache.pending(), 0);
}

#[test]
fn a_second_scan_is_served_from_the_cache_whatever_decoding_would_give() {
    let skips = vec![false, false, false, true];
    let outcomes: Vec<_> =
        four().iter().map(|c| Some(Ok(decoded(&c.path, 7)))).collect();
    let mut cache = ResumeCache::new("s".to_string(), 100);
    cache.store(stamped("b.wav", 9, 20, 2), 20, 2);
    let first = scan_all(&four(), &skips, &outcomes, &mut cache);
    let kept = cache.save();
    assert_eq!(to_decode(&four(), &skips, Some(&cache)), vec![false; 4]);
    let again = vec![
        Some(Err(ProcessError::IoError)),
        None,
        Some(Ok(decoded("c.wav", 1000))),
        Some(Ok(decoded("d.wav", 1000))),
    ];
    let second = scan_all(&four(), &skips, &again, &mut cache);
    assert_eq!(second.emitted, first.emitted);
    assert_eq!(second.errors, Vec::new());
    assert!(!second.checkpoint);
    assert_eq!(cache.save(), kept);
}

#[test]
fn a_scan_without_a_cache_decodes_all_but_what_is_passed_over() {
    let skips = vec![true, false, false, false];
    let outcomes = vec![
        Some(Ok(decoded("a.wav", 1))),
        Some(Err(ProcessError::FlacError)),
        None,
        Some(Ok(decoded("d.wav", 4))),
    ];
    assert_eq!(
        scan_uncached(&four(), &skips, &outcomes),
        ScanReport {
            emitted: vec![stamped("d.wav", 4, 30, 4)],
            errors: vec![("b.wav".to_string(), ProcessError::FlacError)],
            checkpoint: false,
        }
    );
}
