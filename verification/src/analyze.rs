//! Read-only classification of cached tracks: the ones no playlist
//! references, the stale ones (unplayed beyond a retention cutoff), and the
//! total cached footprint.

use vstd::prelude::*;
use crate::model::{CacheAnalysisResult, Membership, MembershipModel, PlaylistCacheInfo,
    PlaylistCacheInfoModel, PlaylistInfo, PlaylistInfoModel, TrackModel, TrackRecord};
use crate::textfmt::{format_size, spec_format_size};

verus! {

/// Whether the store says this track has cached bytes on disk.
pub open spec fn is_cached(t: TrackModel) -> bool {
    t.file_path is Some
}

/// Whether any playlist row references this song.
pub open spec fn has_membership(id: Seq<char>, rows: Seq<MembershipModel>) -> bool {
    exists|j: int| 0 <= j < rows.len() && (#[trigger] rows[j]).song_id == id
}

/// A cached track that no playlist references.
pub open spec fn is_unreferenced(t: TrackModel, rows: Seq<MembershipModel>) -> bool {
    is_cached(t) && !has_membership(t.song_id, rows)
}

/// A cached track last played before `cutoff`, or never played.
pub open spec fn is_stale(t: TrackModel, cutoff: u64) -> bool {
    is_cached(t) && (t.last_played_at is None || t.last_played_at->0 < cutoff)
}

/// The ids of the tracks a classification selects, in store order.
pub open spec fn selected_ids(tracks: Seq<TrackModel>, pred: spec_fn(TrackModel) -> bool) -> Seq<
    Seq<char>,
>
    decreases tracks.len(),
{
    if tracks.len() == 0 {
        Seq::empty()
    } else {
        let rest = selected_ids(tracks.drop_last(), pred);
        if pred(tracks.last()) {
            rest.push(tracks.last().song_id)
        } else {
            rest
        }
    }
}

/// The aggregate on-disk size of the tracks a classification selects.
pub open spec fn selected_total(tracks: Seq<TrackModel>, pred: spec_fn(TrackModel) -> bool) -> nat
    decreases tracks.len(),
{
    if tracks.len() == 0 {
        0
    } else {
        selected_total(tracks.drop_last(), pred) + if pred(tracks.last()) {
            tracks.last().file_size as nat
        } else {
            0
        }
    }
}

/// A selection's size over a prefix never exceeds its size over the whole.
pub proof fn lemma_selected_total_take_le(
    tracks: Seq<TrackModel>,
    pred: spec_fn(TrackModel) -> bool,
    i: int,
)
    requires
        0 <= i <= tracks.len(),
    ensures
        selected_total(tracks.take(i), pred) <= selected_total(tracks, pred),
    decreases tracks.len(),
{
    if i < tracks.len() {
        assert(tracks.take(i) =~= tracks.drop_last().take(i));
        lemma_selected_total_take_le(tracks.drop_last(), pred, i);
    } else {
        assert(tracks.take(i) =~= tracks);
    }
}

/// The unreferenced classification as a predicate on one track.
pub open spec fn unref_pred(rows: Seq<MembershipModel>) -> spec_fn(TrackModel) -> bool {
    |t: TrackModel| is_unreferenced(t, rows)
}

/// The staleness classification as a predicate on one track.
pub open spec fn stale_pred(cutoff: u64) -> spec_fn(TrackModel) -> bool {
    |t: TrackModel| is_stale(t, cutoff)
}

/// The cached-at-all classification as a predicate on one track.
pub open spec fn cached_pred() -> spec_fn(TrackModel) -> bool {
    |t: TrackModel| is_cached(t)
}

/// The total number of bytes the store believes are cached.
pub open spec fn spec_total_cache_size(tracks: Seq<TrackModel>) -> nat {
    selected_total(tracks, cached_pred())
}

/// Whether the two strings hold the same characters.
pub fn str_equal(a: &str, b: &str) -> (r: bool)
    ensures
        r == (a@ == b@),
{
    let na = a.unicode_len();
    let nb = b.unicode_len();
    if na != nb {
        return false;
    }
    let r = crate::server::str_has_prefix(a, b);
    proof {
        assert(a@.take(nb as int) =~= a@);
    }
    r
}

/// Looks for a playlist row referencing `id`.
pub(crate) fn id_has_membership(id: &str, rows: &Vec<Membership>) -> (r: bool)
    ensures
        r == has_membership(id@, rows.deep_view()),
{
    let n = rows.len();
    let mut j: usize = 0;
    while j < n
        invariant
            0 <= j <= n,
            n == rows@.len(),
            forall|k: int| 0 <= k < j ==> (#[trigger] rows.deep_view()[k]).song_id != id@,
        decreases n - j,
    {
        if str_equal(rows[j].song_id.as_str(), id) {
            assert(rows.deep_view()[j as int].song_id == id@);
            return true;
        }
        j = j + 1;
    }
    false
}

/// Runs one classification over the store's rows, returning the matching
/// ids in store order, their count, and their formatted aggregate size.
#[verifier::loop_isolation(false)]
fn classify_tracks(tracks: &Vec<TrackRecord>, memberships: &Vec<Membership>, by_cutoff: Option<
    u64,
>) -> (r: CacheAnalysisResult)
    requires
        selected_total(
            tracks.deep_view(),
            match by_cutoff {
                Some(cutoff) => stale_pred(cutoff),
                None => unref_pred(memberships.deep_view()),
            },
        ) <= u64::MAX,
    ensures
        ({
            let pred = match by_cutoff {
                Some(cutoff) => stale_pred(cutoff),
                None => unref_pred(memberships.deep_view()),
            };
            &&& r.song_ids.deep_view() == selected_ids(tracks.deep_view(), pred)
            &&& r.count == r.song_ids@.len()
            &&& r.total_size_str@ == spec_format_size(
                selected_total(tracks.deep_view(), pred) as u64,
            )
        }),
{
    let ghost pred = match by_cutoff {
        Some(cutoff) => stale_pred(cutoff),
        None => unref_pred(memberships.deep_view()),
    };
    let ghost all = tracks.deep_view();
    let n = tracks.len();
    let mut ids: Vec<String> = Vec::new();
    let mut total: u64 = 0;
    let mut i: usize = 0;
    while i < n
        invariant
            0 <= i <= n,
            n == all.len(),
            ids.deep_view() == selected_ids(all.take(i as int), pred),
            total == selected_total(all.take(i as int), pred),
        decreases n - i,
    {
        let t = &tracks[i];
        let hit = match by_cutoff {
            Some(cutoff) => t.file_path.is_some() && (t.last_played_at.is_none()
                || *t.last_played_at.as_ref().unwrap() < cutoff),
            None => t.file_path.is_some() && !id_has_membership(
                t.song_id.as_str(),
                memberships,
            ),
        };
        assert(hit == pred(all[i as int]));
        proof {
            assert(all.take(i + 1).drop_last() =~= all.take(i as int));
            assert(all.take(i + 1).last() == all[i as int]);
            lemma_selected_total_take_le(all, pred, i + 1);
        }
        if hit {
            ids.push(t.song_id.clone());
            total = total + t.file_size;
            assert(ids.deep_view() =~= selected_ids(all.take(i + 1), pred));
        } else {
            assert(ids.deep_view() =~= selected_ids(all.take(i + 1), pred));
        }
        i = i + 1;
    }
    proof {
        assert(all.take(n as int) =~= all);
    }
    let count = ids.len();
    CacheAnalysisResult { total_size_str: format_size(total), song_ids: ids, count }
}

/// Cached tracks that no playlist references: their ids, count, and
/// formatted aggregate size.
pub fn get_non_playlist_cache_info(tracks: &Vec<TrackRecord>, memberships: &Vec<Membership>) -> (r:
    CacheAnalysisResult)
    requires
        selected_total(tracks.deep_view(), unref_pred(memberships.deep_view())) <= u64::MAX,
    ensures
        r.song_ids.deep_view() == selected_ids(
            tracks.deep_view(),
            unref_pred(memberships.deep_view()),
        ),
        r.count == r.song_ids@.len(),
        r.total_size_str@ == spec_format_size(
            selected_total(tracks.deep_view(), unref_pred(memberships.deep_view())) as u64,
        ),
{
    classify_tracks(tracks, memberships, None)
}

/// Cached tracks last played before `cutoff`, or never played: their ids,
/// count, and formatted aggregate size.
pub fn get_old_cache_info(tracks: &Vec<TrackRecord>, cutoff: u64) -> (r: CacheAnalysisResult)
    requires
        selected_total(tracks.deep_view(), stale_pred(cutoff)) <= u64::MAX,
    ensures
        r.song_ids.deep_view() == selected_ids(tracks.deep_view(), stale_pred(cutoff)),
        r.count == r.song_ids@.len(),
        r.total_size_str@ == spec_format_size(
            selected_total(tracks.deep_view(), stale_pred(cutoff)) as u64,
        ),
{
    let memberships: Vec<Membership> = Vec::new();
    classify_tracks(tracks, &memberships, Some(cutoff))
}

/// The formatted total size of everything the store believes is cached.
pub fn get_cache_size(tracks: &Vec<TrackRecord>) -> (r: String)
    requires
        spec_total_cache_size(tracks.deep_view()) <= u64::MAX,
    ensures
        r@ == spec_format_size(spec_total_cache_size(tracks.deep_view()) as u64),
{
    let ghost all = tracks.deep_view();
    let n = tracks.len();
    let mut total: u64 = 0;
    let mut i: usize = 0;
    while i < n
        invariant
            0 <= i <= n,
            n == all.len(),
            all == tracks.deep_view(),
            spec_total_cache_size(all) <= u64::MAX,
            total == selected_total(all.take(i as int), cached_pred()),
        decreases n - i,
    {
        let t = &tracks[i];
        proof {
            assert(all.take(i + 1).drop_last() =~= all.take(i as int));
            assert(all.take(i + 1).last() == all[i as int]);
            lemma_selected_total_take_le(all, cached_pred(), i + 1);
        }
        if t.file_path.is_some() {
            total = total + t.file_size;
        }
        i = i + 1;
    }
    proof {
        assert(all.take(n as int) =~= all);
    }
    format_size(total)
}

/// The unreferenced classification never selects a song that any playlist
/// row references.
pub proof fn lemma_unreferenced_never_in_playlist(
    tracks: Seq<TrackModel>,
    rows: Seq<MembershipModel>,
)
    ensures
        forall|k: int|
            0 <= k < selected_ids(tracks, unref_pred(rows)).len() ==> !has_membership(
                #[trigger] selected_ids(tracks, unref_pred(rows))[k],
                rows,
            ),
    decreases tracks.len(),
{
    if tracks.len() > 0 {
        lemma_unreferenced_never_in_playlist(tracks.drop_last(), rows);
        let rest = selected_ids(tracks.drop_last(), unref_pred(rows));
        assert forall|k: int|
            0 <= k < selected_ids(tracks, unref_pred(rows)).len() implies !has_membership(
            selected_ids(tracks, unref_pred(rows))[k],
            rows,
        ) by {
            if unref_pred(rows)(tracks.last()) && k == rest.len() {
                assert(is_unreferenced(tracks.last(), rows));
            } else {
                assert(selected_ids(tracks, unref_pred(rows))[k] == rest[k]);
            }
        }
    }
}


// ---------- per-playlist cache footprint ----------

/// The first track of the store with this id, when there is one.
pub open spec fn find_track(tracks: Seq<TrackModel>, id: Seq<char>) -> Option<TrackModel>
    decreases tracks.len(),
{
    if tracks.len() == 0 {
        None
    } else if tracks[0].song_id == id {
        Some(tracks[0])
    } else {
        find_track(tracks.skip(1), id)
    }
}

/// Scanning past non-matching rows does not change what is found.
proof fn lemma_find_track_from(tracks: Seq<TrackModel>, id: Seq<char>, i: int)
    requires
        0 <= i <= tracks.len(),
        forall|j: int| 0 <= j < i ==> (#[trigger] tracks[j]).song_id != id,
    ensures
        find_track(tracks, id) == find_track(tracks.skip(i), id),
    decreases i,
{
    if i > 0 {
        assert(tracks[0].song_id != id);
        assert(tracks.len() > 0);
        lemma_find_track_from(tracks.skip(1), id, i - 1);
        assert(tracks.skip(1).skip(i - 1) =~= tracks.skip(i));
    } else {
        assert(tracks.skip(0) =~= tracks);
    }
}

/// The on-disk bytes of this song when it is cached: `None` when the store
/// has no such track or it is not cached.
pub open spec fn spec_cached_size(tracks: Seq<TrackModel>, id: Seq<char>) -> Option<u64> {
    match find_track(tracks, id) {
        Some(t) => if is_cached(t) {
            Some(t.file_size)
        } else {
            None
        },
        None => None,
    }
}

/// Looks the song up and reports its cached size, when it has one.
fn cached_size_of(tracks: &Vec<TrackRecord>, id: &str) -> (r: Option<u64>)
    ensures
        r == spec_cached_size(tracks.deep_view(), id@),
{
    let ghost all = tracks.deep_view();
    let n = tracks.len();
    let mut i: usize = 0;
    while i < n
        invariant
            0 <= i <= n,
            n == all.len(),
            all == tracks.deep_view(),
            forall|j: int| 0 <= j < i ==> (#[trigger] all[j]).song_id != id@,
        decreases n - i,
    {
        let t = &tracks[i];
        if str_equal(t.song_id.as_str(), id) {
            proof {
                lemma_find_track_from(all, id@, i as int);
                assert(all.skip(i as int)[0] == all[i as int]);
                assert(find_track(all, id@) == Some(all[i as int]));
            }
            return match &t.file_path {
                Some(_) => Some(t.file_size),
                None => None,
            };
        }
        i = i + 1;
    }
    proof {
        lemma_find_track_from(all, id@, n as int);
        assert(all.skip(n as int) =~= Seq::<TrackModel>::empty());
    }
    None
}

/// How many rows put a song into this playlist.
pub open spec fn member_count(p: i64, rows: Seq<MembershipModel>) -> nat
    decreases rows.len(),
{
    if rows.len() == 0 {
        0
    } else {
        member_count(p, rows.drop_last()) + if rows.last().playlist_id == p {
            1nat
        } else {
            0
        }
    }
}

/// How many of this playlist's rows name a cached track.
pub open spec fn cached_member_count(
    p: i64,
    rows: Seq<MembershipModel>,
    tracks: Seq<TrackModel>,
) -> nat
    decreases rows.len(),
{
    if rows.len() == 0 {
        0
    } else {
        cached_member_count(p, rows.drop_last(), tracks) + if rows.last().playlist_id == p
            && spec_cached_size(tracks, rows.last().song_id) is Some {
            1nat
        } else {
            0
        }
    }
}

/// The aggregate on-disk size of this playlist's cached tracks.
pub open spec fn cached_member_size(
    p: i64,
    rows: Seq<MembershipModel>,
    tracks: Seq<TrackModel>,
) -> nat
    decreases rows.len(),
{
    if rows.len() == 0 {
        0
    } else {
        cached_member_size(p, rows.drop_last(), tracks) + (
        if rows.last().playlist_id == p {
            match spec_cached_size(tracks, rows.last().song_id) {
                Some(size) => size as nat,
                None => 0,
            }
        } else {
            0
        })
    }
}

/// A playlist's cached size over a prefix of the rows never exceeds the one
/// over all of them.
proof fn lemma_cached_member_size_take_le(
    p: i64,
    rows: Seq<MembershipModel>,
    tracks: Seq<TrackModel>,
    i: int,
)
    requires
        0 <= i <= rows.len(),
    ensures
        cached_member_size(p, rows.take(i), tracks) <= cached_member_size(p, rows, tracks),
    decreases rows.len(),
{
    if i < rows.len() {
        assert(rows.take(i) =~= rows.drop_last().take(i));
        lemma_cached_member_size_take_le(p, rows.drop_last(), tracks, i);
    } else {
        assert(rows.take(i) =~= rows);
    }
}

/// One playlist's entry in the footprint report.
pub open spec fn spec_playlist_entry(
    p: PlaylistInfoModel,
    rows: Seq<MembershipModel>,
    tracks: Seq<TrackModel>,
) -> PlaylistCacheInfoModel {
    PlaylistCacheInfoModel {
        id: p.id,
        name: p.name,
        cover_path: p.cover_path,
        song_count: member_count(p.id, rows) as i64,
        cached_size_str: spec_format_size(cached_member_size(p.id, rows, tracks) as u64),
        cached_song_count: cached_member_count(p.id, rows, tracks) as i64,
    }
}

/// The footprint report: every playlist with at least one cached track, in
/// store order, with its member count, cached count, and formatted cached
/// size.
pub open spec fn spec_playlists_cache_info(
    ps: Seq<PlaylistInfoModel>,
    rows: Seq<MembershipModel>,
    tracks: Seq<TrackModel>,
) -> Seq<PlaylistCacheInfoModel>
    decreases ps.len(),
{
    if ps.len() == 0 {
        Seq::empty()
    } else {
        let rest = spec_playlists_cache_info(ps.drop_last(), rows, tracks);
        if cached_member_count(ps.last().id, rows, tracks) >= 1 {
            rest.push(spec_playlist_entry(ps.last(), rows, tracks))
        } else {
            rest
        }
    }
}

/// Walks one playlist's rows and tallies members, cached members, and their
/// aggregate size.
#[verifier::loop_isolation(false)]
fn tally_playlist(p_id: i64, memberships: &Vec<Membership>, tracks: &Vec<TrackRecord>) -> (r: (
    i64,
    i64,
    u64,
))
    requires
        memberships@.len() <= i64::MAX,
        cached_member_size(p_id, memberships.deep_view(), tracks.deep_view()) <= u64::MAX,
    ensures
        r.0 == member_count(p_id, memberships.deep_view()) as i64,
        r.1 == cached_member_count(p_id, memberships.deep_view(), tracks.deep_view()) as i64,
        r.2 == cached_member_size(p_id, memberships.deep_view(), tracks.deep_view()) as u64,
        member_count(p_id, memberships.deep_view()) <= memberships@.len(),
        cached_member_count(p_id, memberships.deep_view(), tracks.deep_view())
            <= memberships@.len(),
{
    let ghost rows = memberships.deep_view();
    let ghost all = tracks.deep_view();
    let n = memberships.len();
    let mut members: i64 = 0;
    let mut cached: i64 = 0;
    let mut size: u64 = 0;
    let mut k: usize = 0;
    while k < n
        invariant
            0 <= k <= n,
            members == member_count(p_id, rows.take(k as int)) as i64,
            cached == cached_member_count(p_id, rows.take(k as int), tracks.deep_view()) as i64,
            size == cached_member_size(p_id, rows.take(k as int), tracks.deep_view()) as u64,
            member_count(p_id, rows.take(k as int)) <= k,
            cached_member_count(p_id, rows.take(k as int), tracks.deep_view()) <= k,
        decreases n - k,
    {
        let row = &memberships[k];
        proof {
            assert(rows.take(k + 1).drop_last() =~= rows.take(k as int));
            assert(rows.take(k + 1).last() == rows[k as int]);
            lemma_cached_member_size_take_le(p_id, rows, all, k + 1);
        }
        if row.playlist_id == p_id {
            members = members + 1;
            match cached_size_of(tracks, row.song_id.as_str()) {
                Some(s) => {
                    cached = cached + 1;
                    size = size + s;
                },
                None => {},
            }
        }
        k = k + 1;
    }
    proof {
        assert(rows.take(n as int) =~= rows);
    }
    (members, cached, size)
}

/// For every playlist with at least one cached track: how many tracks it
/// has, how many of them are cached, and their formatted aggregate size.
#[verifier::loop_isolation(false)]
pub fn get_all_playlists_cache_info(
    playlists: &Vec<PlaylistInfo>,
    memberships: &Vec<Membership>,
    tracks: &Vec<TrackRecord>,
) -> (r: Vec<PlaylistCacheInfo>)
    requires
        memberships@.len() <= i64::MAX,
        forall|j: int|
            0 <= j < playlists@.len() ==> cached_member_size(
                (#[trigger] playlists.deep_view()[j]).id,
                memberships.deep_view(),
                tracks.deep_view(),
            ) <= u64::MAX,
    ensures
        r.deep_view() == spec_playlists_cache_info(
            playlists.deep_view(),
            memberships.deep_view(),
            tracks.deep_view(),
        ),
{
    let ghost ps = playlists.deep_view();
    let ghost rows = memberships.deep_view();
    let ghost all = tracks.deep_view();
    let n = playlists.len();
    let mut out: Vec<PlaylistCacheInfo> = Vec::new();
    let mut i: usize = 0;
    assert(out.deep_view() =~= spec_playlists_cache_info(ps.take(0), rows, all));
    while i < n
        invariant
            0 <= i <= n,
            out.deep_view() == spec_playlists_cache_info(ps.take(i as int), rows, all),
        decreases n - i,
    {
        let p = &playlists[i];
        let (members, cached, size) = tally_playlist(p.id, memberships, tracks);
        proof {
            assert(ps.take(i + 1).drop_last() =~= ps.take(i as int));
            assert(ps.take(i + 1).last() == ps[i as int]);
        }
        if cached >= 1 {
            let entry = PlaylistCacheInfo {
                id: p.id,
                name: p.name.clone(),
                cover_path: match &p.cover_path {
                    Some(c) => Some(c.clone()),
                    None => None,
                },
                song_count: members,
                cached_size_str: format_size(size),
                cached_song_count: cached,
            };
            assert(entry@ == spec_playlist_entry(ps[i as int], rows, all));
            assert(out.deep_view().len() == spec_playlists_cache_info(
                ps.take(i as int),
                rows,
                all,
            ).len());
            assert(out@.len() == out.deep_view().len());
            out.push(entry);
            assert(out.deep_view() =~= spec_playlists_cache_info(ps.take(i + 1), rows, all));
        } else {
            assert(out.deep_view() =~= spec_playlists_cache_info(ps.take(i + 1), rows, all));
        }
        i = i + 1;
    }
    proof {
        assert(ps.take(n as int) =~= ps);
    }
    out
}

} // verus!
