use fadupes::fingerprint::{accumulate_metrics, get_max_amplitude, Metrics};
use fadupes::record::StreamInfo;
use fadupes::scan::{initial_processed, plan, scan_all, to_decode, Step};
use fadupes::size_filter::parse_size_filter;
use fadupes::walker::{unique_sizes, Candidate, DirEntryFacts, FileStamp};
use fadupes::{compare_audio_files, AudioFile, LoadOutcome, ProcessError, ResumeCache};

const MB: u64 = 1024 * 1024;

fn levels(m: &Metrics, bits: i32) -> (u32, u64) {
    let full = get_max_amplitude(bits) as f64;
    let peak = m.max_abs as f32 / get_max_amplitude(bits) as f32;
    let mean = m.squared_sum as f64 / (m.count as f64 * full * full);
    (peak.to_bits(), (20.0 * mean.sqrt().log10()).to_bits())
}

fn decode_samples(path: &str, samples: &[i32]) -> Result<AudioFile, ProcessError> {
    let samples = samples.to_vec();
    let m = accumulate_metrics(&samples);
    let (ratio, decibels) = levels(&m, 16);
    let info = StreamInfo {
        sample_rate: 44100,
        bits_per_sample: 16,
        channels: 1,
        total_samples: Some(samples.len() as u64),
    };
    AudioFile::process_audio_file(path, "wav", Ok(info), &m, ratio, decibels)
}

fn entry(path: &str, size: u64) -> DirEntryFacts {
    DirEntryFacts {
        path: path.to_string(),
        is_symlink: false,
        link_target: None,
        stamp: Some(FileStamp { size, modified_secs: 1700000000 }),
        extension: Some("wav".to_string()),
    }
}

fn scan(
    candidates: &Vec<Candidate>,
    cache: &mut ResumeCache,
    streams: &[(&str, Vec<i32>)],
) -> (Vec<AudioFile>, Vec<(String, ProcessError)>, usize) {
    let skips = vec![false; candidates.len()];
    let flags = to_decode(candidates, &skips, Some(&*cache));
    let outcomes: Vec<Option<Result<AudioFile, ProcessError>>> = candidates
        .iter()
        .zip(flags.iter())
        .map(|(c, decode)| {
            if *decode {
                let samples = &streams.iter().find(|(p, _)| *p == c.path).unwrap().1;
                Some(decode_samples(&c.path, samples))
            } else {
                None
            }
        })
        .collect();
    let decoded = outcomes.iter().filter(|o| o.is_some()).count();
    let report = scan_all(candidates, &skips, &outcomes, cache);
    (report.emitted, report.errors, decoded)
}

#[test]
fn three_files_two_of_them_identical() {
    let a: Vec<i32> = (0..1000).map(|i| (i * 37 % 2001) - 1000).collect();
    let b = a.clone();
    let mut c = a.clone();
    c[500] += 1;
    let streams = [("lib/A.wav", a), ("lib/B.wav", b), ("lib/C.wav", c)];
    let entries = vec![entry("lib/A.wav", 2044), entry("lib/B.wav", 2044), entry("lib/C.wav", 2044)];
    let candidates = AudioFile::walk_dir(&entries, &vec!["lib".to_string()], false, None);
    assert_eq!(candidates.len(), 3);
    let (mut cache, _) = ResumeCache::load("state.json".to_string(), 250, LoadOutcome::Missing);
    let (emitted, errors, decoded) = scan(&candidates, &mut cache, &streams);
    assert_eq!(decoded, 3);
    assert_eq!(errors, Vec::new());
    assert_eq!(emitted.len(), 3);
    let groups = compare_audio_files(&emitted);
    assert_eq!(groups, vec![vec!["lib/A.wav".to_string(), "lib/B.wav".to_string()]]);
    assert!(!groups.iter().any(|g| g.iter().any(|p| p == "lib/C.wav")));
}

#[test]
fn scanning_twice_decodes_once_and_finds_the_same_groups() {
    let a: Vec<i32> = vec![5, -5, 10, -10, 0, 7];
    let mut c = a.clone();
    c[0] = 6;
    let streams = [("A.wav", a.clone()), ("B.wav", a), ("C.wav", c)];
    let entries = vec![entry("A.wav", 56), entry("B.wav", 56), entry("C.wav", 56)];
    let candidates = AudioFile::walk_dir(&entries, &Vec::new(), false, None);
    let mut cache = ResumeCache::new("state.json".to_string(), 2);
    let (first, _, decoded_first) = scan(&candidates, &mut cache, &streams);
    assert_eq!(decoded_first, 3);
    let saved = cache.save();
    let (mut resumed, _) =
        ResumeCache::load("state.json".to_string(), 2, LoadOutcome::Parsed(saved));
    let skips = vec![false; 3];
    assert_eq!(initial_processed(&candidates, &skips, Some(&resumed)), 3);
    let (second, errors, decoded_second) = scan(&candidates, &mut resumed, &streams);
    assert_eq!(decoded_second, 0);
    assert_eq!(errors, Vec::new());
    assert_eq!(first, second);
    assert_eq!(compare_audio_files(&first), compare_audio_files(&second));
    assert_eq!(compare_audio_files(&second), vec![vec!["A.wav".to_string(), "B.wav".to_string()]]);
}

#[test]
fn a_changed_file_is_decoded_again() {
    let streams = [("A.wav", vec![1, 2, 3])];
    let mut cache = ResumeCache::new("state.json".to_string(), 250);
    let before = AudioFile::walk_dir(&vec![entry("A.wav", 50)], &Vec::new(), false, None);
    assert_eq!(scan(&before, &mut cache, &streams).2, 1);
    assert_eq!(scan(&before, &mut cache, &streams).2, 0);
    let after = AudioFile::walk_dir(&vec![entry("A.wav", 51)], &Vec::new(), false, None);
    assert_eq!(scan(&after, &mut cache, &streams).2, 1);
    assert_eq!(scan(&after, &mut cache, &streams).2, 0);
    assert_eq!(scan(&before, &mut cache, &streams).2, 1);
}

#[test]
fn a_size_filter_leaves_a_large_file_out_before_decoding() {
    let filter = parse_size_filter(">800MB").unwrap();
    let entries = vec![entry("big.wav", 900 * MB), entry("edge.wav", 800 * MB), entry("s.wav", 1)];
    let candidates = AudioFile::walk_dir(&entries, &Vec::new(), false, Some(filter));
    let kept: Vec<&str> = candidates.iter().map(|c| c.path.as_str()).collect();
    assert_eq!(kept, vec!["edge.wav", "s.wav"]);
}

#[test]
fn unique_sizes_are_passed_over_and_still_counted() {
    let entries = vec![entry("A.wav", 10), entry("B.wav", 20), entry("C.wav", 10)];
    let candidates = AudioFile::walk_dir(&entries, &Vec::new(), false, None);
    let skips = unique_sizes(&candidates);
    assert_eq!(skips, vec![false, true, false]);
    let cache = ResumeCache::new("s".to_string(), 250);
    assert_eq!(plan(&candidates[1], skips[1], Some(&cache)), Step::SkipUnique);
    assert_eq!(initial_processed(&candidates, &skips, Some(&cache)), 1);
    let to_decode = candidates
        .iter()
        .zip(skips.iter())
        .filter(|(c, s)| plan(c, **s, Some(&cache)) == Step::Decode)
        .count();
    assert_eq!(to_decode + 1, candidates.len());
}

#[test]
fn a_file_without_samples_is_reported_and_has_no_record() {
    let streams = [("A.wav", vec![1, 2, 3]), ("E.wav", Vec::new())];
    let entries = vec![entry("A.wav", 50), entry("E.wav", 44)];
    let candidates = AudioFile::walk_dir(&entries, &Vec::new(), false, None);
    let mut cache = ResumeCache::new("state.json".to_string(), 250);
    let (emitted, errors, decoded) = scan(&candidates, &mut cache, &streams);
    assert_eq!(decoded, 2);
    assert_eq!(errors, vec![("E.wav".to_string(), ProcessError::NoSamplesFound)]);
    assert_eq!(emitted.len(), 1);
    assert_eq!(emitted[0].file_path, "A.wav");
    assert_eq!(cache.len(), 1);
    let (_, errors, decoded) = scan(&candidates, &mut cache, &streams);
    assert_eq!(decoded, 1);
    assert_eq!(errors, vec![("E.wav".to_string(), ProcessError::NoSamplesFound)]);
}
