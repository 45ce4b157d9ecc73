//! The rows and derived results the cache subsystem works over: one record
//! per track as the store holds it, playlist membership rows, and the
//! read-only analysis results handed back to callers.

use vstd::prelude::*;

verus! {

/// One row of the `music` table as the cache lifecycle reads it: the track's
/// identity, where its cached bytes live (`None` means "not cached"), when
/// it was last played (seconds since the epoch, `None` means "never"), and
/// the measured on-disk size of the cached file (0 when the file is absent).
pub struct TrackRecord {
    pub song_id: String,
    pub file_path: Option<String>,
    pub last_played_at: Option<u64>,
    pub file_size: u64,
}

/// The mathematical view of a [`TrackRecord`].
pub struct TrackModel {
    pub song_id: Seq<char>,
    pub file_path: Option<Seq<char>>,
    pub last_played_at: Option<u64>,
    pub file_size: u64,
}

impl View for TrackRecord {
    type V = TrackModel;

    open spec fn view(&self) -> TrackModel {
        TrackModel {
            song_id: self.song_id@,
            file_path: self.file_path.deep_view(),
            last_played_at: self.last_played_at,
            file_size: self.file_size,
        }
    }
}

impl DeepView for TrackRecord {
    type V = TrackModel;

    open spec fn deep_view(&self) -> TrackModel {
        self.view()
    }
}

impl TrackRecord {
    /// An identical copy of the record.
    pub fn duplicate(&self) -> (r: TrackRecord)
        ensures
            r@ == self@,
    {
        TrackRecord {
            song_id: self.song_id.clone(),
            file_path: match &self.file_path {
                Some(p) => Some(p.clone()),
                None => None,
            },
            last_played_at: self.last_played_at,
            file_size: self.file_size,
        }
    }
}

/// One row of `playlist_music`: membership of a song in a playlist at a
/// position.
pub struct Membership {
    pub playlist_id: i64,
    pub song_id: String,
    pub position: i64,
}

/// The mathematical view of a [`Membership`].
pub struct MembershipModel {
    pub playlist_id: i64,
    pub song_id: Seq<char>,
    pub position: i64,
}

impl View for Membership {
    type V = MembershipModel;

    open spec fn view(&self) -> MembershipModel {
        MembershipModel {
            playlist_id: self.playlist_id,
            song_id: self.song_id@,
            position: self.position,
        }
    }
}

impl DeepView for Membership {
    type V = MembershipModel;

    open spec fn deep_view(&self) -> MembershipModel {
        self.view()
    }
}

/// A cache classification result: the matching song ids, their number, and
/// their aggregate on-disk size already formatted for display.
pub struct CacheAnalysisResult {
    pub total_size_str: String,
    pub song_ids: Vec<String>,
    pub count: usize,
}

/// Per-playlist cache footprint: the playlist, how many of its tracks are
/// cached, and their aggregate size formatted for display.
pub struct PlaylistCacheInfo {
    pub id: i64,
    pub name: String,
    pub cover_path: Option<String>,
    pub song_count: i64,
    pub cached_size_str: String,
    pub cached_song_count: i64,
}

/// The mathematical view of a [`PlaylistCacheInfo`].
pub struct PlaylistCacheInfoModel {
    pub id: i64,
    pub name: Seq<char>,
    pub cover_path: Option<Seq<char>>,
    pub song_count: i64,
    pub cached_size_str: Seq<char>,
    pub cached_song_count: i64,
}

impl View for PlaylistCacheInfo {
    type V = PlaylistCacheInfoModel;

    open spec fn view(&self) -> PlaylistCacheInfoModel {
        PlaylistCacheInfoModel {
            id: self.id,
            name: self.name@,
            cover_path: self.cover_path.deep_view(),
            song_count: self.song_count,
            cached_size_str: self.cached_size_str@,
            cached_song_count: self.cached_song_count,
        }
    }
}

impl DeepView for PlaylistCacheInfo {
    type V = PlaylistCacheInfoModel;

    open spec fn deep_view(&self) -> PlaylistCacheInfoModel {
        self.view()
    }
}

/// A playlist as the store lists it.
pub struct PlaylistInfo {
    pub id: i64,
    pub name: String,
    pub cover_path: Option<String>,
    pub created_at: String,
    pub updated_at: String,
    pub song_count: i64,
    pub is_in: bool,
}

/// The mathematical view of a [`PlaylistInfo`].
pub struct PlaylistInfoModel {
    pub id: i64,
    pub name: Seq<char>,
    pub cover_path: Option<Seq<char>>,
    pub created_at: Seq<char>,
    pub updated_at: Seq<char>,
    pub song_count: i64,
    pub is_in: bool,
}

impl View for PlaylistInfo {
    type V = PlaylistInfoModel;

    open spec fn view(&self) -> PlaylistInfoModel {
        PlaylistInfoModel {
            id: self.id,
            name: self.name@,
            cover_path: self.cover_path.deep_view(),
            created_at: self.created_at@,
            updated_at: self.updated_at@,
            song_count: self.song_count,
            is_in: self.is_in,
        }
    }
}

impl DeepView for PlaylistInfo {
    type V = PlaylistInfoModel;

    open spec fn deep_view(&self) -> PlaylistInfoModel {
        self.view()
    }
}

/// One track of a playlist as shown to the caller.
pub struct PlaylistMusicItem {
    pub song_id: String,
    pub title: String,
    pub artist: String,
    pub cover_url: Option<String>,
    pub file_path: Option<String>,
}

/// A cached track of a playlist, with its measured file size.
pub struct CachedMusicInfo {
    pub song_id: String,
    pub title: String,
    pub artist: String,
    pub cover_url: Option<String>,
    pub file_path: String,
    pub last_played_at: Option<String>,
    pub file_size_bytes: u64,
}

/// A track picked for deletion: its identity and the file to remove.
pub struct MusicToDelete {
    pub song_id: String,
    pub file_path: String,
}

/// The request to add songs to (or remove them from) a playlist.
pub struct ToggleMusicPayload {
    pub playlist_id: Option<i64>,
    pub song_ids: Vec<String>,
}

} // verus!
