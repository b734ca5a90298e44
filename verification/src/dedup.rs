//! Grouping records by exact equality of their fingerprints.

use vstd::prelude::*;
use std::collections::HashMap;
use vstd::relations::sorted_by;
use vstd::seq_lib::lemma_sorted_unique;
use crate::order::{lemma_text_order_total, same_texts, sorted_texts, text_order, text_views};
use crate::record::{AudioFile, AudioRecord};

verus! {

/// The fingerprint of a record: sample count, sample rate, bit depth,
/// channel count, and the bit patterns of the peak and the RMS level.
pub open spec fn key_of(record: AudioRecord) -> (u64, u32, u32, u32, u32, u64) {
    (
        record.total_samples,
        record.sample_rate,
        record.bit_depth,
        record.channels,
        record.peak_level,
        record.rms_db_level,
    )
}

/// Whether two records have the same fingerprint, bit for bit.
pub open spec fn same_fingerprint(a: AudioRecord, b: AudioRecord) -> bool {
    key_of(a) == key_of(b)
}

/// The records as mathematical values.
pub open spec fn record_views(files: Seq<AudioFile>) -> Seq<AudioRecord> {
    files.map_values(|f: AudioFile| f@)
}

/// The groups as mathematical values.
pub open spec fn group_views(groups: Seq<Vec<String>>) -> Seq<Seq<Seq<char>>> {
    groups.map_values(|g: Vec<String>| text_views(g@))
}

/// The places of the records with the fingerprint `key`, in ascending
/// order.
pub open spec fn members(files: Seq<AudioRecord>, key: (u64, u32, u32, u32, u32, u64)) -> Seq<int>
    decreases files.len(),
{
    if files.len() == 0 {
        Seq::empty()
    } else {
        let before = members(files.drop_last(), key);
        if key_of(files.last()) == key {
            before.push(files.len() - 1)
        } else {
            before
        }
    }
}

/// The paths of the records at the given places.
pub open spec fn paths_at(files: Seq<AudioRecord>, places: Seq<int>) -> Seq<Seq<char>> {
    places.map_values(|k: int| files[k].file_path)
}

/// Whether a record before place `i` has the fingerprint of the record
/// at `i`.
pub open spec fn seen_before(files: Seq<AudioRecord>, i: int) -> bool {
    exists|j: int| 0 <= j < i && same_fingerprint(#[trigger] files[j], files[i])
}

/// Whether the record at place `i` is the first of a group of
/// duplicates: no earlier record has its fingerprint, and a later one
/// has.
pub open spec fn leads_group(files: Seq<AudioRecord>, i: int) -> bool {
    !seen_before(files, i) && members(files, key_of(files[i])).len() >= 2
}

/// The groups of duplicates led by the records before place `n`.
pub open spec fn groups_upto(files: Seq<AudioRecord>, n: nat) -> Seq<Seq<Seq<char>>>
    decreases n,
{
    if n == 0 {
        Seq::empty()
    } else {
        let before = groups_upto(files, (n - 1) as nat);
        if leads_group(files, n - 1) {
            before.push(paths_at(files, members(files, key_of(files[n - 1]))))
        } else {
            before
        }
    }
}

/// The groups of duplicates among the records. A group holds the paths
/// of all records with one fingerprint, in the order of the records,
/// where there are two or more of them; the groups stand in the order
/// of their first records.
pub open spec fn groups_of(files: Seq<AudioRecord>) -> Seq<Seq<Seq<char>>> {
    groups_upto(files, files.len())
}

/// The members of a fingerprint are the places of the records that have
/// it, each once and in ascending order.
pub proof fn lemma_members(files: Seq<AudioRecord>, key: (u64, u32, u32, u32, u32, u64))
    ensures
        forall|k: int|
            members(files, key).contains(k) <==> 0 <= k < files.len() && key_of(
                #[trigger] files[k],
            ) == key,
        forall|i: int, j: int|
            0 <= i < j < members(files, key).len() ==> members(files, key)[i] < members(
                files,
                key,
            )[j],
        forall|i: int|
            0 <= i < members(files, key).len() ==> 0 <= #[trigger] members(files, key)[i]
                < files.len(),
        members(files, key).len() <= files.len(),
    decreases files.len(),
{
    let all = members(files, key);
    if files.len() > 0 {
        let init = files.drop_last();
        let before = members(init, key);
        let n = files.len() - 1;
        lemma_members(init, key);
        assert forall|k: int| 0 <= k < n implies init[k] == files[k] by {}
        assert forall|k: int| all.contains(k) implies 0 <= k < files.len() && key_of(
            #[trigger] files[k],
        ) == key by {
            let i = choose|i: int| 0 <= i < all.len() && all[i] == k;
            if i < before.len() {
                assert(before[i] == k);
                assert(before.contains(k));
                assert(init[k] == files[k]);
            }
        }
        assert forall|k: int|
            0 <= k < files.len() && key_of(#[trigger] files[k]) == key implies all.contains(k) by {
            if k < n {
                assert(init[k] == files[k]);
                assert(before.contains(k));
                let i = choose|i: int| 0 <= i < before.len() && before[i] == k;
                assert(all[i] == k);
            } else {
                assert(all[all.len() - 1] == k);
            }
        }
        assert forall|i: int, j: int| 0 <= i < j < all.len() implies all[i] < all[j] by {
            if j < before.len() {
                assert(all[i] == before[i] && all[j] == before[j]);
            } else {
                assert(all[i] == before[i]);
            }
        }
    } else {
        assert forall|k: int| all.contains(k) implies 0 <= k < files.len() && key_of(
            #[trigger] files[k],
        ) == key by {
            let i = choose|i: int| 0 <= i < all.len() && all[i] == k;
        }
    }
}

/// The group that a record leads is among the groups.
pub proof fn lemma_group_present(files: Seq<AudioRecord>, n: nat, leader: int)
    requires
        0 <= leader < n <= files.len(),
        leads_group(files, leader),
    ensures
        exists|i: int|
            0 <= i < groups_upto(files, n).len() && #[trigger] groups_upto(files, n)[i] == paths_at(
                files,
                members(files, key_of(files[leader])),
            ),
    decreases n,
{
    let group = paths_at(files, members(files, key_of(files[leader])));
    let before = groups_upto(files, (n - 1) as nat);
    if leader == n - 1 {
        assert(groups_upto(files, n)[before.len() as int] == group);
    } else {
        lemma_group_present(files, (n - 1) as nat, leader);
        let i = choose|i: int| 0 <= i < before.len() && #[trigger] before[i] == group;
        assert(groups_upto(files, n)[i] == group);
    }
}

/// Records with the same fingerprint form one group, whatever their
/// paths and sizes, and a record with another fingerprint is not in it:
/// the group holds the paths of the two, it does not hold the place of
/// the third, and it is among the groups found.
pub proof fn lemma_duplicates_share_a_group(files: Seq<AudioRecord>, a: int, b: int, c: int)
    requires
        0 <= a < files.len(),
        0 <= b < files.len(),
        0 <= c < files.len(),
        a != b,
        same_fingerprint(files[a], files[b]),
        !same_fingerprint(files[a], files[c]),
    ensures
        members(files, key_of(files[a])).contains(a),
        members(files, key_of(files[a])).contains(b),
        !members(files, key_of(files[a])).contains(c),
        exists|i: int|
            0 <= i < groups_of(files).len() && #[trigger] groups_of(files)[i] == paths_at(
                files,
                members(files, key_of(files[a])),
            ),
{
    let key = key_of(files[a]);
    let group = members(files, key);
    lemma_members(files, key);
    assert(group.contains(a));
    assert(group.contains(b));
    let ia = choose|i: int| 0 <= i < group.len() && group[i] == a;
    let ib = choose|i: int| 0 <= i < group.len() && group[i] == b;
    assert(ia != ib);
    assert(group.len() >= 2);
    let leader = group[0];
    assert(group.contains(leader));
    assert(key_of(files[leader]) == key);
    assert(!seen_before(files, leader)) by {
        if seen_before(files, leader) {
            let j = choose|j: int| 0 <= j < leader && same_fingerprint(#[trigger] files[j], files[leader]);
            assert(group.contains(j));
            let ij = choose|i: int| 0 <= i < group.len() && group[i] == j;
            if ij > 0 {
                assert(group[0] < group[ij]);
            }
        }
    }
    lemma_group_present(files, files.len(), leader);
    let all = groups_upto(files, files.len());
    let i = choose|i: int|
        0 <= i < all.len() && #[trigger] all[i] == paths_at(
            files,
            members(files, key_of(files[leader])),
        );
    assert(groups_of(files)[i] == paths_at(files, group));
}

/// Whether two records have the same fingerprint, bit for bit.
pub fn same_key(a: &AudioFile, b: &AudioFile) -> (r: bool)
    ensures
        r == same_fingerprint(a@, b@),
{
    a.total_samples == b.total_samples && a.sample_rate == b.sample_rate && a.bit_depth
        == b.bit_depth && a.channels == b.channels && a.peak_level == b.peak_level
        && a.rms_db_level == b.rms_db_level
}

/// The places of the records with `samples` samples, in ascending
/// order.
pub open spec fn places_of(files: Seq<AudioRecord>, samples: u64) -> Seq<int>
    decreases files.len(),
{
    if files.len() == 0 {
        Seq::empty()
    } else {
        let before = places_of(files.drop_last(), samples);
        if files.last().total_samples == samples {
            before.push(files.len() - 1)
        } else {
            before
        }
    }
}

/// Those of `places` at which a record with the fingerprint `key`
/// stands, in the order of `places`.
pub open spec fn picked(
    files: Seq<AudioRecord>,
    places: Seq<int>,
    key: (u64, u32, u32, u32, u32, u64),
) -> Seq<int>
    decreases places.len(),
{
    if places.len() == 0 {
        Seq::empty()
    } else {
        let before = picked(files, places.drop_last(), key);
        if key_of(files[places.last()]) == key {
            before.push(places.last())
        } else {
            before
        }
    }
}

/// The places as whole numbers.
pub open spec fn as_places(bucket: Seq<usize>) -> Seq<int> {
    bucket.map_values(|p: usize| p as int)
}

/// The places of the records with `samples` samples lie among the
/// records.
proof fn lemma_places_in_range(files: Seq<AudioRecord>, samples: u64)
    ensures
        forall|k: int|
            0 <= k < places_of(files, samples).len() ==> 0 <= #[trigger] places_of(
                files,
                samples,
            )[k] < files.len() && files[places_of(files, samples)[k]].total_samples == samples,
        forall|p: int|
            0 <= p < files.len() && (#[trigger] files[p]).total_samples == samples
                ==> places_of(files, samples).contains(p),
        forall|a: int, b: int|
            0 <= a < b < places_of(files, samples).len() ==> places_of(files, samples)[a]
                < places_of(files, samples)[b],
    decreases files.len(),
{
    let all = places_of(files, samples);
    if files.len() > 0 {
        let init = files.drop_last();
        let before = places_of(init, samples);
        lemma_places_in_range(init, samples);
        assert forall|k: int| 0 <= k < all.len() implies 0 <= #[trigger] all[k] < files.len()
            && files[all[k]].total_samples == samples by {
            if k < before.len() {
                assert(all[k] == before[k]);
                assert(init[before[k]] == files[before[k]]);
            }
        }
        assert forall|p: int|
            0 <= p < files.len() && (#[trigger] files[p]).total_samples
                == samples implies all.contains(p) by {
            if p < init.len() {
                assert(init[p] == files[p]);
                assert(before.contains(p));
                let k = choose|k: int| 0 <= k < before.len() && before[k] == p;
                assert(all[k] == p);
            } else {
                assert(all[all.len() - 1] == p);
            }
        }
        assert forall|a: int, b: int| 0 <= a < b < all.len() implies all[a] < all[b] by {
            if b < before.len() {
                assert(all[a] == before[a] && all[b] == before[b]);
            } else {
                assert(all[a] == before[a]);
            }
        }
    }
}

/// What is picked depends on the records at the places only.
proof fn lemma_picked_agrees(
    files: Seq<AudioRecord>,
    other: Seq<AudioRecord>,
    places: Seq<int>,
    key: (u64, u32, u32, u32, u32, u64),
)
    requires
        forall|k: int| 0 <= k < places.len() ==> files[#[trigger] places[k]] == other[places[k]],
    ensures
        picked(files, places, key) == picked(other, places, key),
    decreases places.len(),
{
    if places.len() > 0 {
        assert forall|k: int| 0 <= k < places.drop_last().len() implies files[
            #[trigger] places.drop_last()[k]] == other[places.drop_last()[k]] by {
            assert(places.drop_last()[k] == places[k]);
        }
        lemma_picked_agrees(files, other, places.drop_last(), key);
        assert(places[places.len() - 1] == places.last());
    }
}

/// The members of a fingerprint are those picked among the places of
/// the records with its number of samples.
proof fn lemma_picked_are_members(files: Seq<AudioRecord>, key: (u64, u32, u32, u32, u32, u64))
    ensures
        picked(files, places_of(files, key.0), key) == members(files, key),
    decreases files.len(),
{
    if files.len() > 0 {
        let init = files.drop_last();
        let before = places_of(init, key.0);
        lemma_picked_are_members(init, key);
        lemma_places_in_range(init, key.0);
        assert forall|k: int| 0 <= k < before.len() implies files[#[trigger] before[k]] == init[
            before[k]] by {}
        lemma_picked_agrees(files, init, before, key);
        if files.last().total_samples == key.0 {
            let all = places_of(files, key.0);
            assert(all.drop_last() =~= before);
            assert(all.last() == files.len() - 1);
            assert(files[files.len() - 1] == files.last());
        }
    }
}

/// The places of the records, gathered by their number of samples.
fn sample_buckets(files: &Vec<AudioFile>) -> (buckets: HashMap<u64, Vec<usize>>)
    ensures
        forall|samples: u64| #[trigger]
            buckets@.contains_key(samples) ==> as_places(buckets@[samples]@) == places_of(
                record_views(files@),
                samples,
            ),
        forall|samples: u64|
            !(#[trigger] buckets@.contains_key(samples)) ==> places_of(
                record_views(files@),
                samples,
            ).len() == 0,
{
    broadcast use vstd::std_specs::hash::group_hash_axioms;

    let ghost views = record_views(files@);
    let mut buckets: HashMap<u64, Vec<usize>> = HashMap::new();
    let mut i: usize = 0;
    assert(views.subrange(0, 0) =~= Seq::<AudioRecord>::empty());
    while i < files.len()
        invariant
            i <= files.len(),
            views == record_views(files@),
            forall|samples: u64| #[trigger]
                buckets@.contains_key(samples) ==> as_places(buckets@[samples]@) == places_of(
                    views.subrange(0, i as int),
                    samples,
                ),
            forall|samples: u64|
                !(#[trigger] buckets@.contains_key(samples)) ==> places_of(
                    views.subrange(0, i as int),
                    samples,
                ).len() == 0,
        decreases files.len() - i,
    {
        let samples: u64 = files[i].total_samples;
        let ghost seen = views.subrange(0, i as int);
        let ghost next = views.subrange(0, i as int + 1);
        proof {
            assert(next.drop_last() =~= seen);
            assert(next.last() == views[i as int]);
            assert(views[i as int] == files@[i as int]@);
        }
        let mut bucket: Vec<usize> = match buckets.remove(&samples) {
            Some(bucket) => bucket,
            None => Vec::new(),
        };
        assert(as_places(bucket@) =~= places_of(seen, samples));
        let ghost old_bucket = bucket@;
        bucket.push(i);
        assert(as_places(bucket@) =~= as_places(old_bucket).push(i as int));
        buckets.insert(samples, bucket);
        i += 1;
    }
    assert(views.subrange(0, files.len() as int) =~= views);
    buckets
}

/// Whether a record before place `i` has the fingerprint of the record
/// at `i`. `bucket` holds the places of the records with the number of
/// samples of the record at `i`.
fn seen_earlier(files: &Vec<AudioFile>, bucket: &Vec<usize>, i: usize) -> (r: bool)
    requires
        i < files.len(),
        as_places(bucket@) == places_of(record_views(files@), files@[i as int].total_samples),
    ensures
        r == seen_before(record_views(files@), i as int),
{
    let ghost views = record_views(files@);
    let ghost places = as_places(bucket@);
    proof {
        lemma_places_in_range(views, files@[i as int].total_samples);
        assert(views[i as int] == files@[i as int]@);
    }
    let mut k: usize = 0;
    while k < bucket.len() && bucket[k] < i
        invariant
            k <= bucket.len(),
            i < files.len(),
            views == record_views(files@),
            places == as_places(bucket@),
            places == places_of(views, views[i as int].total_samples),
            forall|a: int|
                0 <= a < places.len() ==> 0 <= #[trigger] places[a] < views.len(),
            forall|a: int, b: int| 0 <= a < b < places.len() ==> places[a] < places[b],
            forall|a: int|
                0 <= a < k ==> !same_fingerprint(views[#[trigger] places[a]], views[i as int]),
        decreases bucket.len() - k,
    {
        assert(places[k as int] == bucket@[k as int]);
        assert(views[bucket@[k as int] as int] == files@[bucket@[k as int] as int]@);
        if same_key(&files[bucket[k]], &files[i]) {
            assert(same_fingerprint(views[places[k as int]], views[i as int]));
            return true;
        }
        k += 1;
    }
    proof {
        if seen_before(views, i as int) {
            let j = choose|j: int| 0 <= j < i && same_fingerprint(#[trigger] views[j], views[i as int]);
            assert(views[j].total_samples == views[i as int].total_samples);
            assert(places.contains(j));
            let a = choose|a: int| 0 <= a < places.len() && places[a] == j;
            if a >= k {
                assert(k < bucket.len());
                assert(places[k as int] == bucket@[k as int]);
                if a > k {
                    assert(places[k as int] < places[a]);
                }
            }
        }
    }
    false
}

/// The paths of the records with the fingerprint of the record at place
/// `i`, in the order of the records. `bucket` holds the places of the
/// records with the number of samples of the record at `i`.
fn paths_like(files: &Vec<AudioFile>, bucket: &Vec<usize>, i: usize) -> (r: Vec<String>)
    requires
        i < files.len(),
        as_places(bucket@) == places_of(record_views(files@), files@[i as int].total_samples),
    ensures
        text_views(r@) == paths_at(
            record_views(files@),
            members(record_views(files@), key_of(files@[i as int]@)),
        ),
        r.len() == members(record_views(files@), key_of(files@[i as int]@)).len(),
{
    let ghost views = record_views(files@);
    let ghost key = key_of(files@[i as int]@);
    let ghost places = as_places(bucket@);
    proof {
        lemma_places_in_range(views, files@[i as int].total_samples);
        lemma_picked_are_members(views, key);
        assert(views[i as int] == files@[i as int]@);
    }
    let mut r: Vec<String> = Vec::new();
    let mut k: usize = 0;
    assert(places.subrange(0, 0) =~= Seq::<int>::empty());
    assert(text_views(r@) =~= paths_at(views, picked(views, places.subrange(0, 0), key)));
    while k < bucket.len()
        invariant
            k <= bucket.len(),
            i < files.len(),
            views == record_views(files@),
            key == key_of(files@[i as int]@),
            places == as_places(bucket@),
            forall|a: int|
                0 <= a < places.len() ==> 0 <= #[trigger] places[a] < views.len(),
            r.len() == picked(views, places.subrange(0, k as int), key).len(),
            text_views(r@) == paths_at(views, picked(views, places.subrange(0, k as int), key)),
        decreases bucket.len() - k,
    {
        let place: usize = bucket[k];
        proof {
            let next = places.subrange(0, k as int + 1);
            assert(next.drop_last() =~= places.subrange(0, k as int));
            assert(next.last() == places[k as int]);
            assert(places[k as int] == place);
            assert(views[place as int] == files@[place as int]@);
            assert(views[i as int] == files@[i as int]@);
        }
        let ghost before = r@;
        if same_key(&files[place], &files[i]) {
            r.push(files[place].file_path.clone());
            assert(text_views(r@) =~= text_views(before).push(views[place as int].file_path));
            assert(paths_at(views, picked(views, places.subrange(0, k as int + 1), key))
                =~= paths_at(views, picked(views, places.subrange(0, k as int), key)).push(
                views[place as int].file_path,
            ));
        }
        k += 1;
    }
    assert(places.subrange(0, bucket.len() as int) =~= places);
    r
}

/// Finds the groups of duplicates among the records.
pub fn find_groups(files: &Vec<AudioFile>) -> (r: Vec<Vec<String>>)
    ensures
        group_views(r@) == groups_of(record_views(files@)),
{
    broadcast use vstd::std_specs::hash::group_hash_axioms;

    let ghost views = record_views(files@);
    let buckets: HashMap<u64, Vec<usize>> = sample_buckets(files);
    let mut r: Vec<Vec<String>> = Vec::new();
    let mut i: usize = 0;
    assert(group_views(r@) =~= groups_upto(views, 0));
    while i < files.len()
        invariant
            i <= files.len(),
            views == record_views(files@),
            forall|samples: u64| #[trigger]
                buckets@.contains_key(samples) ==> as_places(buckets@[samples]@) == places_of(
                    views,
                    samples,
                ),
            forall|samples: u64|
                !(#[trigger] buckets@.contains_key(samples)) ==> places_of(views, samples).len()
                    == 0,
            group_views(r@) == groups_upto(views, i as nat),
        decreases files.len() - i,
    {
        let ghost before = r@;
        let samples: u64 = files[i].total_samples;
        proof {
            assert(views[i as int] == files@[i as int]@);
            lemma_places_in_range(views, samples);
            assert(places_of(views, samples).contains(i as int));
            assert(places_of(views, samples).len() > 0);
        }
        match buckets.get(&samples) {
            Some(bucket) => {
                if !seen_earlier(files, bucket, i) {
                    let group: Vec<String> = paths_like(files, bucket, i);
                    if group.len() >= 2 {
                        r.push(group);
                        assert(group_views(r@) =~= group_views(before).push(text_views(group@)));
                    }
                }
            },
            None => {
                // The record at `i` stands in the bucket of its own sample count.
                assert(false);
            },
        }
        i += 1;
    }
    r
}

/// Whether two groups have the same signature: sorted, their paths make
/// the same list, which is to say that they hold the same paths, each
/// as often.
pub open spec fn same_signature(a: Seq<Seq<char>>, b: Seq<Seq<char>>) -> bool {
    a.to_multiset() == b.to_multiset()
}

/// Whether a group before place `i` has the signature of the group at
/// `i`.
pub open spec fn reported_before(groups: Seq<Seq<Seq<char>>>, i: int) -> bool {
    exists|j: int| 0 <= j < i && same_signature(#[trigger] groups[j], groups[i])
}

/// The groups to report among those before place `n`.
pub open spec fn reported_upto(groups: Seq<Seq<Seq<char>>>, n: nat) -> Seq<Seq<Seq<char>>>
    decreases n,
{
    if n == 0 {
        Seq::empty()
    } else {
        let before = reported_upto(groups, (n - 1) as nat);
        if reported_before(groups, n - 1) {
            before
        } else {
            before.push(groups[n - 1])
        }
    }
}

/// The groups to report: each group, in order, unless a group with its
/// signature has come before.
pub open spec fn reported(groups: Seq<Seq<Seq<char>>>) -> Seq<Seq<Seq<char>>> {
    reported_upto(groups, groups.len())
}

/// Whether no two of the groups have the same signature.
pub open spec fn distinct_signatures(groups: Seq<Seq<Seq<char>>>) -> bool {
    forall|i: int, j: int|
        0 <= i < j < groups.len() ==> !same_signature(#[trigger] groups[i], #[trigger] groups[j])
}

/// Where no two groups have the same signature, the groups before place
/// `n` are all reported.
proof fn lemma_reported_upto_all(groups: Seq<Seq<Seq<char>>>, n: nat)
    requires
        distinct_signatures(groups),
        n <= groups.len(),
    ensures
        reported_upto(groups, n) == groups.subrange(0, n as int),
    decreases n,
{
    if n == 0 {
        assert(reported_upto(groups, n) =~= groups.subrange(0, 0));
    } else {
        lemma_reported_upto_all(groups, (n - 1) as nat);
        assert(!reported_before(groups, n - 1)) by {
            if reported_before(groups, n - 1) {
                let j = choose|j: int|
                    0 <= j < n - 1 && same_signature(#[trigger] groups[j], groups[n - 1]);
                assert(!same_signature(groups[j], groups[n - 1]));
            }
        }
        assert(reported_upto(groups, n) =~= groups.subrange(0, n as int));
    }
}

/// Where no two groups have the same signature, every group is
/// reported, in its place.
pub proof fn lemma_reported_all(groups: Seq<Seq<Seq<char>>>)
    requires
        distinct_signatures(groups),
    ensures
        reported(groups) == groups,
{
    lemma_reported_upto_all(groups, groups.len());
    assert(groups.subrange(0, groups.len() as int) =~= groups);
}

/// A group whose signature no group before it has is reported.
pub proof fn lemma_first_of_signature_reported(groups: Seq<Seq<Seq<char>>>, n: nat, k: int)
    requires
        0 <= k < n <= groups.len(),
        !reported_before(groups, k),
    ensures
        exists|i: int|
            0 <= i < reported_upto(groups, n).len() && #[trigger] reported_upto(groups, n)[i]
                == groups[k],
    decreases n,
{
    let before = reported_upto(groups, (n - 1) as nat);
    if k == n - 1 {
        assert(reported_upto(groups, n)[before.len() as int] == groups[k]);
    } else {
        lemma_first_of_signature_reported(groups, (n - 1) as nat, k);
        let i = choose|i: int| 0 <= i < before.len() && #[trigger] before[i] == groups[k];
        assert(reported_upto(groups, n)[i] == groups[k]);
    }
}

/// The signature of every group is that of a reported group: the group
/// itself, or the first before it with its signature.
pub proof fn lemma_every_signature_reported(groups: Seq<Seq<Seq<char>>>, j: int)
    requires
        0 <= j < groups.len(),
    ensures
        exists|i: int|
            0 <= i < reported(groups).len() && same_signature(
                #[trigger] reported(groups)[i],
                groups[j],
            ),
    decreases j,
{
    if reported_before(groups, j) {
        let k = choose|k: int| 0 <= k < j && same_signature(#[trigger] groups[k], groups[j]);
        lemma_every_signature_reported(groups, k);
        let i = choose|i: int|
            0 <= i < reported(groups).len() && same_signature(
                #[trigger] reported(groups)[i],
                groups[k],
            );
        assert(same_signature(reported(groups)[i], groups[j]));
    } else {
        lemma_first_of_signature_reported(groups, groups.len(), j);
        let all = reported_upto(groups, groups.len());
        let i = choose|i: int| 0 <= i < all.len() && #[trigger] all[i] == groups[j];
        assert(same_signature(reported(groups)[i], groups[j]));
    }
}

/// What is reported of two records with the same fingerprint: a group
/// that holds the paths of all records with that fingerprint, each as
/// often as it occurs among them, whatever their paths and sizes. The
/// two are among these records, and a record with another fingerprint
/// is not.
pub proof fn lemma_duplicates_reported_together(files: Seq<AudioRecord>, a: int, b: int, c: int)
    requires
        0 <= a < files.len(),
        0 <= b < files.len(),
        0 <= c < files.len(),
        a != b,
        same_fingerprint(files[a], files[b]),
        !same_fingerprint(files[a], files[c]),
    ensures
        members(files, key_of(files[a])).contains(a),
        members(files, key_of(files[a])).contains(b),
        !members(files, key_of(files[a])).contains(c),
        exists|i: int|
            0 <= i < reported(groups_of(files)).len() && same_signature(
                #[trigger] reported(groups_of(files))[i],
                paths_at(files, members(files, key_of(files[a]))),
            ),
        distinct_signatures(groups_of(files)) ==> exists|i: int|
            0 <= i < reported(groups_of(files)).len() && #[trigger] reported(groups_of(files))[i]
                == paths_at(files, members(files, key_of(files[a]))),
{
    lemma_duplicates_share_a_group(files, a, b, c);
    let groups = groups_of(files);
    let group = paths_at(files, members(files, key_of(files[a])));
    let j = choose|j: int| 0 <= j < groups.len() && #[trigger] groups[j] == group;
    lemma_every_signature_reported(groups, j);
    let i = choose|i: int|
        0 <= i < reported(groups).len() && same_signature(#[trigger] reported(groups)[i], groups[j]);
    assert(same_signature(reported(groups_of(files))[i], group));
    if distinct_signatures(groups) {
        lemma_reported_all(groups);
        assert(reported(groups_of(files))[j] == group);
    }
}

/// Whether no two records have the same path.
pub open spec fn distinct_file_paths(files: Seq<AudioRecord>) -> bool {
    forall|i: int, j: int|
        0 <= i < j < files.len() ==> (#[trigger] files[i]).file_path != (
        #[trigger] files[j]).file_path
}

/// The places of the records that lead a group, among those before
/// place `n`, in ascending order.
pub open spec fn leaders_upto(files: Seq<AudioRecord>, n: nat) -> Seq<int>
    decreases n,
{
    if n == 0 {
        Seq::empty()
    } else {
        let before = leaders_upto(files, (n - 1) as nat);
        if leads_group(files, n - 1) {
            before.push(n - 1)
        } else {
            before
        }
    }
}

/// Each group is the group of its leader, and the leaders stand in
/// ascending order.
proof fn lemma_groups_by_leader(files: Seq<AudioRecord>, n: nat)
    requires
        n <= files.len(),
    ensures
        leaders_upto(files, n).len() == groups_upto(files, n).len(),
        forall|i: int|
            0 <= i < leaders_upto(files, n).len() ==> 0 <= #[trigger] leaders_upto(files, n)[i]
                < n && leads_group(files, leaders_upto(files, n)[i]) && groups_upto(files, n)[i]
                == paths_at(files, members(files, key_of(files[leaders_upto(files, n)[i]]))),
        forall|i: int, j: int|
            0 <= i < j < leaders_upto(files, n).len() ==> leaders_upto(files, n)[i]
                < leaders_upto(files, n)[j],
    decreases n,
{
    if n > 0 {
        lemma_groups_by_leader(files, (n - 1) as nat);
    }
}

/// Among records with paths of their own, no two groups have the same
/// signature.
pub proof fn lemma_distinct_paths_distinct_signatures(files: Seq<AudioRecord>)
    requires
        distinct_file_paths(files),
    ensures
        distinct_signatures(groups_of(files)),
{
    broadcast use vstd::seq_lib::group_to_multiset_ensures;

    let groups = groups_of(files);
    let leaders = leaders_upto(files, files.len());
    lemma_groups_by_leader(files, files.len());
    assert forall|i: int, j: int| 0 <= i < j < groups.len() implies !same_signature(
        #[trigger] groups[i],
        #[trigger] groups[j],
    ) by {
        let first = leaders[i];
        let second = leaders[j];
        let own = members(files, key_of(files[first]));
        let other = members(files, key_of(files[second]));
        lemma_members(files, key_of(files[first]));
        lemma_members(files, key_of(files[second]));
        assert(first < second);
        assert(key_of(files[first]) != key_of(files[second])) by {
            if key_of(files[first]) == key_of(files[second]) {
                assert(same_fingerprint(files[first], files[second]));
                assert(seen_before(files, second));
            }
        }
        let path = files[first].file_path;
        assert(own.contains(first));
        let x = choose|x: int| 0 <= x < own.len() && own[x] == first;
        assert(groups[i][x] == path);
        assert(groups[i].contains(path));
        assert(!groups[j].contains(path)) by {
            if groups[j].contains(path) {
                let y = choose|y: int| 0 <= y < groups[j].len() && groups[j][y] == path;
                let k = other[y];
                assert(other.contains(k));
                assert(files[k].file_path == files[first].file_path);
                if k < first {
                    assert(files[k].file_path != files[first].file_path);
                } else if first < k {
                    assert(files[first].file_path != files[k].file_path);
                }
                assert(k == first);
            }
        }
        assert(groups[i].to_multiset().count(path) > 0);
        assert(groups[j].to_multiset().count(path) == 0);
    }
}

/// Among records with paths of their own, every group of duplicates is
/// reported, in its place.
pub proof fn lemma_distinct_paths_report_all(files: Seq<AudioRecord>)
    requires
        distinct_file_paths(files),
    ensures
        reported(groups_of(files)) == groups_of(files),
{
    lemma_distinct_paths_distinct_signatures(files);
    lemma_reported_all(groups_of(files));
}

/// A copy of the texts.
fn copy_texts(texts: &Vec<String>) -> (r: Vec<String>)
    ensures
        text_views(r@) == text_views(texts@),
{
    let mut r: Vec<String> = Vec::new();
    let mut i: usize = 0;
    while i < texts.len()
        invariant
            i <= texts.len(),
            r.len() == i,
            forall|k: int| 0 <= k < i ==> (#[trigger] r@[k])@ == texts@[k]@,
        decreases texts.len() - i,
    {
        r.push(texts[i].clone());
        i += 1;
    }
    assert(text_views(r@) =~= text_views(texts@));
    r
}

/// Whether one of the first `n` signatures is `signature`.
fn signature_seen(signatures: &Vec<Vec<String>>, signature: &Vec<String>) -> (r: bool)
    ensures
        r == exists|j: int|
            0 <= j < signatures.len() && text_views((#[trigger] signatures@[j])@) == text_views(
                signature@,
            ),
{
    let mut j: usize = 0;
    while j < signatures.len()
        invariant
            j <= signatures.len(),
            forall|k: int|
                0 <= k < j ==> text_views((#[trigger] signatures@[k])@) != text_views(signature@),
        decreases signatures.len() - j,
    {
        if same_texts(&signatures[j], signature) {
            return true;
        }
        j += 1;
    }
    false
}

/// Leaves out each group whose signature a group before it has.
pub fn report_groups(groups: &Vec<Vec<String>>) -> (r: Vec<Vec<String>>)
    ensures
        group_views(r@) == reported(group_views(groups@)),
{
    let ghost views = group_views(groups@);
    let mut signatures: Vec<Vec<String>> = Vec::new();
    let mut r: Vec<Vec<String>> = Vec::new();
    let mut i: usize = 0;
    assert(group_views(r@) =~= reported_upto(views, 0));
    while i < groups.len()
        invariant
            i <= groups.len(),
            views == group_views(groups@),
            signatures.len() == i,
            forall|k: int|
                0 <= k < i ==> sorted_by(text_views((#[trigger] signatures@[k])@), text_order())
                    && text_views(signatures@[k]@).to_multiset() == views[k].to_multiset(),
            group_views(r@) == reported_upto(views, i as nat),
        decreases groups.len() - i,
    {
        let signature: Vec<String> = sorted_texts(&groups[i]);
        let seen: bool = signature_seen(&signatures, &signature);
        proof {
            lemma_text_order_total();
            assert(views[i as int] == text_views(groups@[i as int]@));
            if seen {
                let j = choose|j: int|
                    0 <= j < signatures.len() && text_views((#[trigger] signatures@[j])@)
                        == text_views(signature@);
                assert(same_signature(views[j], views[i as int]));
            }
            if reported_before(views, i as int) {
                let j = choose|j: int|
                    0 <= j < i && same_signature(#[trigger] views[j], views[i as int]);
                lemma_sorted_unique(
                    text_views(signatures@[j]@),
                    text_views(signature@),
                    text_order(),
                );
                assert(text_views(signatures@[j]@) == text_views(signature@));
            }
            assert(seen == reported_before(views, i as int));
        }
        let ghost before = r@;
        if !seen {
            let group: Vec<String> = copy_texts(&groups[i]);
            r.push(group);
            assert(group_views(r@) =~= group_views(before).push(views[i as int]));
        }
        signatures.push(signature);
        i += 1;
    }
    r
}

/// Finds the groups of duplicates among the records and leaves out each
/// group whose signature a group before it has.
pub fn compare_audio_files(files: &Vec<AudioFile>) -> (r: Vec<Vec<String>>)
    ensures
        group_views(r@) == reported(groups_of(record_views(files@))),
{
    let groups: Vec<Vec<String>> = find_groups(files);
    report_groups(&groups)
}

} // verus!
