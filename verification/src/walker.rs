//! Choosing the files to scan among the entries found under the roots.

use vstd::prelude::*;
use std::collections::HashMap;
use crate::record::{container_for, container_of, AudioFile};
use crate::size_filter::SizeFilter;

verus! {

/// No file above this size is scanned: 800 MiB.
pub const SIZE_CEILING: u64 = 838860800;

/// The size and the modification time of a file, in seconds since the
/// epoch.
#[derive(Clone, Copy, Debug, PartialEq, Eq, Structural)]
pub struct FileStamp {
    pub size: u64,
    pub modified_secs: u64,
}

/// What was observed of one entry of a directory tree.
#[derive(Debug, PartialEq, Eq)]
pub struct DirEntryFacts {
    pub path: String,
    /// Whether the entry is a symbolic link.
    pub is_symlink: bool,
    /// Where the link points, if the entry is a link that could be read.
    pub link_target: Option<String>,
    /// Size and modification time, unless they could not be read.
    pub stamp: Option<FileStamp>,
    /// The extension of the file name, if it has one.
    pub extension: Option<String>,
}

/// A file to scan.
#[derive(Debug, PartialEq, Eq)]
pub struct Candidate {
    pub path: String,
    pub size: u64,
    pub modified_secs: u64,
}

/// A `Candidate` as a mathematical value.
pub struct CandidateView {
    pub path: Seq<char>,
    pub size: u64,
    pub modified_secs: u64,
}

impl View for Candidate {
    type V = CandidateView;

    open spec fn view(&self) -> CandidateView {
        CandidateView { path: self.path@, size: self.size, modified_secs: self.modified_secs }
    }
}

impl Clone for Candidate {
    fn clone(&self) -> (r: Candidate)
        ensures
            r@ == self@,
    {
        Candidate {
            path: self.path.clone(),
            size: self.size,
            modified_secs: self.modified_secs,
        }
    }
}

/// The candidates as mathematical values.
pub open spec fn candidate_views(candidates: Seq<Candidate>) -> Seq<CandidateView> {
    candidates.map_values(|c: Candidate| c@)
}

/// Whether `target` is one of the roots.
pub open spec fn is_root(roots: Seq<String>, target: Seq<char>) -> bool {
    exists|i: int| 0 <= i < roots.len() && (#[trigger] roots[i])@ == target
}

/// Whether a link is left out: every link is where links are ignored,
/// and otherwise a link that points at one of the roots, which would
/// lead the scan in a circle.
pub open spec fn link_skipped(entry: DirEntryFacts, roots: Seq<String>, ignore_symlinks: bool) -> bool {
    entry.is_symlink && (ignore_symlinks || match entry.link_target {
        Some(target) => is_root(roots, target@),
        None => false,
    })
}

/// Whether a file of this size is left out: the filter matches it, or it
/// is above the ceiling.
pub open spec fn size_skipped(size: u64, filter: Option<SizeFilter>) -> bool {
    size > SIZE_CEILING || match filter {
        Some(f) => f.ignores(size),
        None => false,
    }
}

/// Whether the extension is that of an audio file that can be decoded.
pub open spec fn audio_extension(extension: Option<String>) -> bool {
    match extension {
        Some(e) => container_for(e@).is_some(),
        None => false,
    }
}

/// Whether the entry is a file to scan.
pub open spec fn selected(
    entry: DirEntryFacts,
    roots: Seq<String>,
    ignore_symlinks: bool,
    filter: Option<SizeFilter>,
) -> bool {
    &&& !link_skipped(entry, roots, ignore_symlinks)
    &&& match entry.stamp {
        Some(stamp) => !size_skipped(stamp.size, filter),
        None => false,
    }
    &&& audio_extension(entry.extension)
}

/// The candidate that a selected entry becomes.
pub open spec fn candidate_of(entry: DirEntryFacts) -> CandidateView {
    CandidateView {
        path: entry.path@,
        size: entry.stamp.unwrap().size,
        modified_secs: entry.stamp.unwrap().modified_secs,
    }
}

/// The files to scan among `entries`, in the order of the entries.
pub open spec fn candidates_of(
    entries: Seq<DirEntryFacts>,
    roots: Seq<String>,
    ignore_symlinks: bool,
    filter: Option<SizeFilter>,
) -> Seq<CandidateView>
    decreases entries.len(),
{
    if entries.len() == 0 {
        Seq::empty()
    } else {
        let before = candidates_of(entries.drop_last(), roots, ignore_symlinks, filter);
        if selected(entries.last(), roots, ignore_symlinks, filter) {
            before.push(candidate_of(entries.last()))
        } else {
            before
        }
    }
}

/// How many of the candidates have the size `size`.
pub open spec fn count_of_size(candidates: Seq<CandidateView>, size: u64) -> nat
    decreases candidates.len(),
{
    if candidates.len() == 0 {
        0
    } else {
        count_of_size(candidates.drop_last(), size) + if candidates.last().size == size {
            1nat
        } else {
            0nat
        }
    }
}

/// Whether no two candidates have the size `size`.
pub open spec fn unique_size(candidates: Seq<CandidateView>, size: u64) -> bool {
    count_of_size(candidates, size) <= 1
}

/// No more candidates have one size than there are candidates.
pub proof fn lemma_count_bound(candidates: Seq<CandidateView>, size: u64)
    ensures
        count_of_size(candidates, size) <= candidates.len(),
    decreases candidates.len(),
{
    if candidates.len() > 0 {
        lemma_count_bound(candidates.drop_last(), size);
    }
}

/// Whether `target` is one of the roots.
pub fn points_at_root(roots: &Vec<String>, target: &String) -> (r: bool)
    ensures
        r == is_root(roots@, target@),
{
    let mut i: usize = 0;
    while i < roots.len()
        invariant
            i <= roots.len(),
            forall|j: int| 0 <= j < i ==> (#[trigger] roots@[j])@ != target@,
        decreases roots.len() - i,
    {
        if roots[i] == *target {
            return true;
        }
        i += 1;
    }
    false
}

/// Makes the candidate of an entry that is a file to scan.
pub fn select(
    entry: &DirEntryFacts,
    roots: &Vec<String>,
    ignore_symlinks: bool,
    filter: Option<SizeFilter>,
) -> (r: Option<Candidate>)
    ensures
        r is Some <==> selected(*entry, roots@, ignore_symlinks, filter),
        r matches Some(c) ==> c@ == candidate_of(*entry),
{
    if entry.is_symlink {
        if ignore_symlinks {
            return None;
        }
        match &entry.link_target {
            Some(target) => {
                if points_at_root(roots, target) {
                    return None;
                }
            },
            None => {},
        }
    }
    let stamp: FileStamp = match entry.stamp {
        Some(stamp) => stamp,
        None => { return None; },
    };
    match filter {
        Some(f) => {
            if f.should_ignore(stamp.size) {
                return None;
            }
        },
        None => {},
    }
    let known: bool = match &entry.extension {
        Some(e) => container_of(e.as_str()).is_some(),
        None => false,
    };
    if known && stamp.size <= SIZE_CEILING {
        Some(
            Candidate {
                path: entry.path.clone(),
                size: stamp.size,
                modified_secs: stamp.modified_secs,
            },
        )
    } else {
        None
    }
}

impl AudioFile {
    /// Chooses the files to scan among the entries found under the
    /// roots, in the order in which the entries are given.
    pub fn walk_dir(
        entries: &Vec<DirEntryFacts>,
        scanned_dirs: &Vec<String>,
        ignore_symlinks: bool,
        ignore_size: Option<SizeFilter>,
    ) -> (r: Vec<Candidate>)
        ensures
            candidate_views(r@) == candidates_of(
                entries@,
                scanned_dirs@,
                ignore_symlinks,
                ignore_size,
            ),
    {
        let mut r: Vec<Candidate> = Vec::new();
        let mut i: usize = 0;
        assert(entries@.subrange(0, 0) =~= Seq::<DirEntryFacts>::empty());
        assert(candidate_views(r@) =~= Seq::<CandidateView>::empty());
        while i < entries.len()
            invariant
                i <= entries.len(),
                candidate_views(r@) == candidates_of(
                    entries@.subrange(0, i as int),
                    scanned_dirs@,
                    ignore_symlinks,
                    ignore_size,
                ),
            decreases entries.len() - i,
        {
            proof {
                let next = entries@.subrange(0, i as int + 1);
                assert(next.drop_last() =~= entries@.subrange(0, i as int));
                assert(next.last() == entries@[i as int]);
            }
            let ghost before = r@;
            match select(&entries[i], scanned_dirs, ignore_symlinks, ignore_size) {
                Some(c) => {
                    r.push(c);
                    assert(candidate_views(r@) =~= candidate_views(before).push(c@));
                },
                None => {},
            }
            i += 1;
        }
        assert(entries@.subrange(0, entries.len() as int) =~= entries@);
        r
    }
}

/// For each candidate, whether no other candidate has its size.
pub fn unique_sizes(candidates: &Vec<Candidate>) -> (r: Vec<bool>)
    ensures
        r.len() == candidates.len(),
        forall|i: int|
            0 <= i < r.len() ==> r@[i] == unique_size(
                candidate_views(candidates@),
                (#[trigger] candidates@[i]).size,
            ),
{
    broadcast use vstd::std_specs::hash::group_hash_axioms;

    let ghost all = candidate_views(candidates@);
    let mut counts: HashMap<u64, usize> = HashMap::new();
    let mut i: usize = 0;
    assert(all.subrange(0, 0) =~= Seq::<CandidateView>::empty());
    while i < candidates.len()
        invariant
            i <= candidates.len(),
            all == candidate_views(candidates@),
            forall|s: u64| #[trigger]
                counts@.contains_key(s) ==> counts@[s] == count_of_size(
                    all.subrange(0, i as int),
                    s,
                ) && counts@[s] > 0,
            forall|s: u64|
                !(#[trigger] counts@.contains_key(s)) ==> count_of_size(
                    all.subrange(0, i as int),
                    s,
                ) == 0,
        decreases candidates.len() - i,
    {
        let size: u64 = candidates[i].size;
        proof {
            let next = all.subrange(0, i as int + 1);
            assert(next.drop_last() =~= all.subrange(0, i as int));
            assert(next.last() == candidates@[i as int]@);
            lemma_count_bound(all.subrange(0, i as int), size);
        }
        let seen: usize = match counts.get(&size) {
            Some(n) => *n,
            None => 0,
        };
        counts.insert(size, seen + 1);
        i += 1;
    }
    assert(all.subrange(0, candidates.len() as int) =~= all);
    let mut r: Vec<bool> = Vec::new();
    let mut j: usize = 0;
    while j < candidates.len()
        invariant
            j <= candidates.len(),
            r.len() == j,
            all == candidate_views(candidates@),
            forall|s: u64| #[trigger]
                counts@.contains_key(s) ==> counts@[s] == count_of_size(all, s),
            forall|s: u64| !(#[trigger] counts@.contains_key(s)) ==> count_of_size(all, s) == 0,
            forall|k: int|
                0 <= k < j ==> r@[k] == unique_size(all, (#[trigger] candidates@[k]).size),
        decreases candidates.len() - j,
    {
        let seen: usize = match counts.get(&candidates[j].size) {
            Some(n) => *n,
            None => 0,
        };
        r.push(seen <= 1);
        j += 1;
    }
    r
}

} // verus!
