use fadupes::size_filter::SizeFilter;
use fadupes::walker::{
    points_at_root, select, unique_sizes, Candidate, DirEntryFacts, FileStamp, SIZE_CEILING,
};
use fadupes::AudioFile;

const MB: u64 = 1024 * 1024;

fn file(path: &str, ext: &str, size: u64) -> DirEntryFacts {
    DirEntryFacts {
        path: path.to_string(),
        is_symlink: false,
        link_target: None,
        stamp: Some(FileStamp { size, modified_secs: 42 }),
        extension: Some(ext.to_string()),
    }
}

fn candidate(path: &str, size: u64) -> Candidate {
    Candidate { path: path.to_string(), size, modified_secs: 42 }
}

#[test]
fn the_ceiling_is_eight_hundred_mebibytes() {
    assert_eq!(SIZE_CEILING, 800 * MB);
}

#[test]
fn audio_files_are_selected() {
    let roots = vec!["/music".to_string()];
    assert_eq!(select(&file("/music/a.flac", "flac", 10), &roots, false, None), Some(candidate("/music/a.flac", 10)));
    assert_eq!(select(&file("/music/a.wav", "wav", 0), &roots, true, None), Some(candidate("/music/a.wav", 0)));
}

#[test]
fn other_extensions_are_left_out() {
    let roots = Vec::new();
    assert_eq!(select(&file("a.mp3", "mp3", 10), &roots, false, None), None);
    assert_eq!(select(&file("a.FLAC", "FLAC", 10), &roots, false, None), None);
    let mut bare = file("a", "", 10);
    bare.extension = None;
    assert_eq!(select(&bare, &roots, false, None), None);
}

#[test]
fn files_above_the_ceiling_are_left_out() {
    let roots = Vec::new();
    assert!(select(&file("a.wav", "wav", 800 * MB), &roots, false, None).is_some());
    assert_eq!(select(&file("a.wav", "wav", 800 * MB + 1), &roots, false, None), None);
    assert_eq!(select(&file("a.wav", "wav", 900 * MB), &roots, false, None), None);
}

#[test]
fn the_size_filter_leaves_files_out_before_decoding() {
    let roots = Vec::new();
    let above = Some(SizeFilter::Gt(700 * MB));
    assert_eq!(select(&file("a.wav", "wav", 750 * MB), &roots, false, above), None);
    assert!(select(&file("a.wav", "wav", 700 * MB), &roots, false, above).is_some());
    let below = Some(SizeFilter::Lt(3 * MB));
    assert_eq!(select(&file("a.wav", "wav", 3 * MB - 1), &roots, false, below), None);
    assert!(select(&file("a.wav", "wav", 3 * MB), &roots, false, below).is_some());
    let range = Some(SizeFilter::Range(10, 20));
    assert_eq!(select(&file("a.wav", "wav", 10), &roots, false, range), None);
    assert_eq!(select(&file("a.wav", "wav", 20), &roots, false, range), None);
    assert!(select(&file("a.wav", "wav", 9), &roots, false, range).is_some());
    assert!(select(&file("a.wav", "wav", 21), &roots, false, range).is_some());
}

#[test]
fn entries_without_metadata_are_dropped() {
    let mut e = file("a.wav", "wav", 10);
    e.stamp = None;
    assert_eq!(select(&e, &Vec::new(), false, None), None);
}

#[test]
fn links_are_followed_unless_they_point_at_a_root() {
    let roots = vec!["/music".to_string(), "/more".to_string()];
    let mut link = file("/music/l.wav", "wav", 10);
    link.is_symlink = true;
    link.link_target = Some("/elsewhere/l.wav".to_string());
    assert!(select(&link, &roots, false, None).is_some());
    link.link_target = Some("/more".to_string());
    assert_eq!(select(&link, &roots, false, None), None);
    link.link_target = None;
    assert!(select(&link, &roots, false, None).is_some());
    let mut plain = file("/music/p.wav", "wav", 10);
    plain.link_target = Some("/more".to_string());
    assert!(select(&plain, &roots, false, None).is_some());
}

#[test]
fn links_are_left_out_where_they_are_ignored() {
    let roots = vec!["/music".to_string()];
    let mut link = file("/music/l.wav", "wav", 10);
    link.is_symlink = true;
    link.link_target = Some("/elsewhere/l.wav".to_string());
    assert_eq!(select(&link, &roots, true, None), None);
}

#[test]
fn roots_are_told_by_exact_text() {
    let roots = vec!["/a".to_string(), "/b".to_string()];
    assert!(points_at_root(&roots, &"/a".to_string()));
    assert!(points_at_root(&roots, &"/b".to_string()));
    assert!(!points_at_root(&roots, &"/a/".to_string()));
    assert!(!points_at_root(&Vec::new(), &"/a".to_string()));
}

#[test]
fn walking_keeps_the_order_of_the_entries() {
    let entries = vec![
        file("a.flac", "flac", 1),
        file("b.txt", "txt", 2),
        file("c.wav", "wav", 3),
        file("d.wav", "wav", 900 * MB),
        file("e.flac", "flac", 5),
    ];
    let found = AudioFile::walk_dir(&entries, &Vec::new(), false, None);
    assert_eq!(found, vec![candidate("a.flac", 1), candidate("c.wav", 3), candidate("e.flac", 5)]);
    assert_eq!(AudioFile::walk_dir(&Vec::new(), &Vec::new(), false, None), Vec::new());
}

#[test]
fn unique_sizes_are_marked() {
    let cands = vec![
        candidate("a", 10),
        candidate("b", 20),
        candidate("c", 10),
        candidate("d", 30),
        candidate("e", 10),
        candidate("f", 30),
        candidate("g", 0),
    ];
    assert_eq!(unique_sizes(&cands), vec![false, true, false, false, false, false, true]);
    assert_eq!(unique_sizes(&Vec::new()), Vec::<bool>::new());
    assert_eq!(unique_sizes(&vec![candidate("a", 1)]), vec![true]);
}
