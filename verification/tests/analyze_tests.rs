use musicbox::analyze::{
    get_all_playlists_cache_info, get_cache_size, get_non_playlist_cache_info, get_old_cache_info,
};
use musicbox::model::{Membership, PlaylistInfo, TrackRecord};

fn track(id: &str, path: Option<&str>, played: Option<u64>, size: u64) -> TrackRecord {
    TrackRecord {
        song_id: id.to_string(),
        file_path: path.map(|p| p.to_string()),
        last_played_at: played,
        file_size: size,
    }
}

fn member(playlist: i64, id: &str, position: i64) -> Membership {
    Membership { playlist_id: playlist, song_id: id.to_string(), position }
}

fn playlist(id: i64, name: &str) -> PlaylistInfo {
    PlaylistInfo {
        id,
        name: name.to_string(),
        cover_path: None,
        created_at: "2024-01-01".to_string(),
        updated_at: "2024-01-01".to_string(),
        song_count: 0,
        is_in: false,
    }
}

#[test]
fn unreferenced_never_includes_a_playlist_member() {
    let tracks = vec![
        track("a", Some("/c/a.mp3"), None, 100),
        track("b", Some("/c/b.mp3"), Some(5), 200),
        track("c", None, None, 0),
        track("d", Some("/c/d.mp3"), Some(9), 50),
    ];
    let members = vec![member(1, "b", 0), member(2, "b", 0), member(1, "x", 1)];
    let r = get_non_playlist_cache_info(&tracks, &members);
    assert_eq!(r.song_ids, vec!["a".to_string(), "d".to_string()]);
    assert_eq!(r.count, 2);
    assert_eq!(r.total_size_str, "150 B");
    for id in &r.song_ids {
        assert!(members.iter().all(|m| &m.song_id != id));
    }
}

#[test]
fn stale_selects_old_and_never_played_cached_tracks() {
    let tracks = vec![
        track("old", Some("/c/old.mp3"), Some(10), 1),
        track("new", Some("/c/new.mp3"), Some(100), 2),
        track("never", Some("/c/never.mp3"), None, 4),
        track("uncached", None, Some(1), 8),
        track("edge", Some("/c/edge.mp3"), Some(50), 16),
    ];
    let r = get_old_cache_info(&tracks, 50);
    assert_eq!(r.song_ids, vec!["old".to_string(), "never".to_string()]);
    assert_eq!(r.count, 2);
    assert_eq!(r.total_size_str, "5 B");
}

#[test]
fn never_played_tracks_are_stale_under_any_window() {
    let tracks = vec![
        track("never", Some("/c/never.mp3"), None, 4),
        track("played", Some("/c/played.mp3"), Some(0), 2),
    ];
    let r = get_old_cache_info(&tracks, 0);
    assert_eq!(r.song_ids, vec!["never".to_string()]);
}

#[test]
fn cache_size_counts_only_cached_rows() {
    let tracks = vec![
        track("a", Some("/c/a.mp3"), None, 1024),
        track("b", None, None, 999),
        track("c", Some("/c/c.mp3"), Some(3), 512),
    ];
    assert_eq!(get_cache_size(&tracks), "1.50 KB");
    let empty: Vec<TrackRecord> = Vec::new();
    assert_eq!(get_cache_size(&empty), "0 B");
}

#[test]
fn playlist_footprint_reports_only_playlists_with_cached_tracks() {
    let tracks = vec![
        track("a", Some("/c/a.mp3"), None, 100),
        track("b", None, None, 0),
        track("c", Some("/c/c.mp3"), Some(1), 24),
    ];
    let members = vec![
        member(1, "a", 0),
        member(1, "b", 1),
        member(2, "b", 0),
        member(3, "a", 0),
        member(3, "c", 1),
    ];
    let playlists = vec![playlist(1, "one"), playlist(2, "two"), playlist(3, "three")];
    let r = get_all_playlists_cache_info(&playlists, &members, &tracks);
    assert_eq!(r.len(), 2);
    assert_eq!(r[0].id, 1);
    assert_eq!(r[0].name, "one");
    assert_eq!(r[0].song_count, 2);
    assert_eq!(r[0].cached_song_count, 1);
    assert_eq!(r[0].cached_size_str, "100 B");
    assert_eq!(r[1].id, 3);
    assert_eq!(r[1].song_count, 2);
    assert_eq!(r[1].cached_song_count, 2);
    assert_eq!(r[1].cached_size_str, "124 B");
}
