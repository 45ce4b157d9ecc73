//! Eviction: clearing cache pointers for an explicit id set, or for
//! everything when the set is empty, and naming the files to delete.
//! Callers delete the files first and update the store after, so an
//! interruption biases toward "file gone, store stale", never the reverse.

use vstd::prelude::*;
use crate::analyze::{is_cached, spec_total_cache_size};
use crate::model::{TrackModel, TrackRecord};

verus! {

/// Whether eviction for `ids` hits this track: an empty set is the sentinel
/// for "evict everything".
pub open spec fn evicts(ids: Seq<Seq<char>>, t: TrackModel) -> bool {
    ids.len() == 0 || ids.contains(t.song_id)
}

/// One track after eviction for `ids`: a hit loses its cached file, anything
/// else is untouched.
pub open spec fn spec_evict_one(t: TrackModel, ids: Seq<Seq<char>>) -> TrackModel {
    if evicts(ids, t) {
        TrackModel {
            song_id: t.song_id,
            file_path: None,
            last_played_at: t.last_played_at,
            file_size: 0,
        }
    } else {
        t
    }
}

/// The whole store after eviction for `ids`.
pub open spec fn spec_evict(tracks: Seq<TrackModel>, ids: Seq<Seq<char>>) -> Seq<TrackModel> {
    tracks.map_values(|t: TrackModel| spec_evict_one(t, ids))
}

/// The files an eviction for a non-empty id set deletes: the recorded paths
/// of the requested tracks that are cached. For the empty sentinel the
/// whole cache directory goes instead, so no individual paths are named.
pub open spec fn spec_paths_to_delete(tracks: Seq<TrackModel>, ids: Seq<Seq<char>>) -> Seq<
    Seq<char>,
>
    decreases tracks.len(),
{
    if tracks.len() == 0 || ids.len() == 0 {
        Seq::empty()
    } else {
        let rest = spec_paths_to_delete(tracks.drop_last(), ids);
        if ids.contains(tracks.last().song_id) && tracks.last().file_path is Some {
            rest.push(tracks.last().file_path->0)
        } else {
            rest
        }
    }
}

/// Looks for `id` in the requested id set.
fn ids_contain(ids: &Vec<String>, id: &str) -> (r: bool)
    ensures
        r == ids.deep_view().contains(id@),
{
    let n = ids.len();
    let mut j: usize = 0;
    while j < n
        invariant
            0 <= j <= n,
            n == ids@.len(),
            forall|k: int| 0 <= k < j ==> ids.deep_view()[k] != id@,
        decreases n - j,
    {
        if crate::analyze::str_equal(ids[j].as_str(), id) {
            assert(ids.deep_view()[j as int] == id@);
            return true;
        }
        j = j + 1;
    }
    proof {
        if ids.deep_view().contains(id@) {
            let k = choose|k: int| 0 <= k < n && ids.deep_view()[k] == id@;
            assert(ids.deep_view()[k] != id@);
        }
    }
    false
}

/// The store's rows after evicting the requested ids (all of them for the
/// empty sentinel): hit rows lose their cached file, the rest are untouched.
pub fn clear_cache_by_ids(tracks: &Vec<TrackRecord>, song_ids: &Vec<String>) -> (r: Vec<
    TrackRecord,
>)
    ensures
        r.deep_view() == spec_evict(tracks.deep_view(), song_ids.deep_view()),
{
    let ghost all = tracks.deep_view();
    let ghost ids = song_ids.deep_view();
    let n = tracks.len();
    let evict_all = song_ids.len() == 0;
    let mut out: Vec<TrackRecord> = Vec::new();
    let mut i: usize = 0;
    while i < n
        invariant
            0 <= i <= n,
            n == all.len(),
            all == tracks.deep_view(),
            ids == song_ids.deep_view(),
            evict_all == (ids.len() == 0),
            out.deep_view() == all.take(i as int).map_values(
                |t: TrackModel| spec_evict_one(t, ids),
            ),
        decreases n - i,
    {
        let t = &tracks[i];
        assert(out.deep_view().len() == i as int);
        assert(out@.len() == i as int);
        let hit = evict_all || ids_contain(song_ids, t.song_id.as_str());
        assert(hit == evicts(ids, all[i as int]));
        if hit {
            out.push(
                TrackRecord {
                    song_id: t.song_id.clone(),
                    file_path: None,
                    last_played_at: t.last_played_at,
                    file_size: 0,
                },
            );
        } else {
            out.push(t.duplicate());
        }
        proof {
            let f = |t: TrackModel| spec_evict_one(t, ids);
            assert(out@.len() == i + 1);
            assert(out@[i as int]@ == spec_evict_one(all[i as int], ids));
            assert forall|j: int| 0 <= j < i + 1 implies out.deep_view()[j] == all.take(i + 1).map_values(f)[j] by {
                assert(all.take(i + 1).map_values(f)[j] == f(all[j]));
                if j < i {
                    assert(out.deep_view()[j] == all.take(i as int).map_values(f)[j]);
                }
            }
            assert(out.deep_view() =~= all.take(i + 1).map_values(f));
        }
        i = i + 1;
    }
    proof {
        assert(all.take(n as int) =~= all);
    }
    out
}

/// The files to delete before the store update, for a non-empty id set:
/// exactly the recorded paths of the requested tracks that are cached. A
/// path whose file is already gone is deleted as a no-op by the caller.
pub fn eviction_paths(tracks: &Vec<TrackRecord>, song_ids: &Vec<String>) -> (r: Vec<String>)
    ensures
        r.deep_view() == spec_paths_to_delete(tracks.deep_view(), song_ids.deep_view()),
{
    let ghost all = tracks.deep_view();
    let ghost ids = song_ids.deep_view();
    let mut out: Vec<String> = Vec::new();
    if song_ids.len() == 0 {
        return out;
    }
    let n = tracks.len();
    let mut i: usize = 0;
    while i < n
        invariant
            0 <= i <= n,
            n == all.len(),
            all == tracks.deep_view(),
            ids == song_ids.deep_view(),
            ids.len() > 0,
            out.deep_view() == spec_paths_to_delete(all.take(i as int), ids),
        decreases n - i,
    {
        let t = &tracks[i];
        proof {
            assert(all.take(i + 1).drop_last() =~= all.take(i as int));
            assert(all.take(i + 1).last() == all[i as int]);
        }
        if ids_contain(song_ids, t.song_id.as_str()) {
            match &t.file_path {
                Some(p) => {
                    out.push(p.clone());
                },
                None => {},
            }
        }
        assert(out.deep_view() =~= spec_paths_to_delete(all.take(i + 1), ids));
        i = i + 1;
    }
    proof {
        assert(all.take(n as int) =~= all);
    }
    out
}

/// No track of a store whose rows are all uncached contributes any bytes.
proof fn lemma_total_zero_when_none_cached(tracks: Seq<TrackModel>)
    requires
        forall|i: int| 0 <= i < tracks.len() ==> !is_cached(#[trigger] tracks[i]),
    ensures
        spec_total_cache_size(tracks) == 0,
    decreases tracks.len(),
{
    if tracks.len() > 0 {
        assert(!is_cached(tracks.last()));
        lemma_total_zero_when_none_cached(tracks.drop_last());
    }
}

/// Evicting with the empty sentinel empties the cache: every row's pointer
/// becomes null and the total cached size is zero.
pub proof fn lemma_evict_all_empties_cache(tracks: Seq<TrackModel>)
    ensures
        spec_evict(tracks, Seq::empty()).len() == tracks.len(),
        forall|i: int|
            0 <= i < tracks.len() ==> (#[trigger] spec_evict(tracks, Seq::empty())[i]).file_path
                is None,
        spec_total_cache_size(spec_evict(tracks, Seq::empty())) == 0,
{
    let after = spec_evict(tracks, Seq::<Seq<char>>::empty());
    assert forall|i: int| 0 <= i < after.len() implies !is_cached(#[trigger] after[i]) by {
        assert(after[i] == spec_evict_one(tracks[i], Seq::<Seq<char>>::empty()));
    }
    lemma_total_zero_when_none_cached(after);
}

/// Evicting a non-empty id set clears exactly the requested rows: a
/// requested row's pointer becomes null, every other row is untouched, and
/// every file deleted is the recorded file of a requested, cached row.
pub proof fn lemma_evict_targets_only_requested(tracks: Seq<TrackModel>, ids: Seq<Seq<char>>)
    requires
        ids.len() > 0,
    ensures
        spec_evict(tracks, ids).len() == tracks.len(),
        forall|i: int|
            0 <= i < tracks.len() && ids.contains((#[trigger] tracks[i]).song_id) ==> spec_evict(
                tracks,
                ids,
            )[i].file_path is None,
        forall|i: int|
            0 <= i < tracks.len() && !ids.contains((#[trigger] tracks[i]).song_id) ==> spec_evict(
                tracks,
                ids,
            )[i] == tracks[i],
        forall|k: int|
            #![trigger spec_paths_to_delete(tracks, ids)[k]]
            0 <= k < spec_paths_to_delete(tracks, ids).len() ==> exists|i: int|
                0 <= i < tracks.len() && ids.contains(#[trigger] tracks[i].song_id) && tracks[i].file_path
                    == Some(spec_paths_to_delete(tracks, ids)[k]),
    decreases tracks.len(),
{
    assert forall|i: int|
        0 <= i < tracks.len() && ids.contains(
            (#[trigger] tracks[i]).song_id,
        ) implies spec_evict(tracks, ids)[i].file_path is None by {
        assert(spec_evict(tracks, ids)[i] == spec_evict_one(tracks[i], ids));
    }
    assert forall|i: int|
        0 <= i < tracks.len() && !ids.contains(
            (#[trigger] tracks[i]).song_id,
        ) implies spec_evict(tracks, ids)[i] == tracks[i] by {
        assert(spec_evict(tracks, ids)[i] == spec_evict_one(tracks[i], ids));
    }
    if tracks.len() > 0 {
        lemma_evict_targets_only_requested(tracks.drop_last(), ids);
        let paths = spec_paths_to_delete(tracks, ids);
        let rest = spec_paths_to_delete(tracks.drop_last(), ids);
        assert forall|k: int| #![trigger paths[k]] 0 <= k < paths.len() implies exists|i: int|
            0 <= i < tracks.len() && ids.contains(#[trigger] tracks[i].song_id) && tracks[i].file_path
                == Some(paths[k]) by {
            if k < rest.len() {
                let i = choose|i: int|
                    0 <= i < tracks.drop_last().len() && ids.contains(
                        #[trigger] tracks.drop_last()[i].song_id,
                    ) && tracks.drop_last()[i].file_path == Some(rest[k]);
                assert(tracks[i] == tracks.drop_last()[i]);
                assert(ids.contains(tracks[i].song_id) && tracks[i].file_path == Some(paths[k]));
            } else {
                let i = tracks.len() - 1;
                assert(ids.contains(tracks[i].song_id) && tracks[i].file_path == Some(paths[k]));
            }
        }
    }
}

} // verus!
