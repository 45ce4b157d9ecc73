use musicbox::analyze::get_cache_size;
use musicbox::evict::{clear_cache_by_ids, eviction_paths};
use musicbox::model::TrackRecord;

fn track(id: &str, path: Option<&str>, played: Option<u64>, size: u64) -> TrackRecord {
    TrackRecord {
        song_id: id.to_string(),
        file_path: path.map(|p| p.to_string()),
        last_played_at: played,
        file_size: size,
    }
}

#[test]
fn empty_set_evicts_everything() {
    let tracks = vec![
        track("a", Some("/c/a.mp3"), None, 100),
        track("b", Some("/c/b.mp3"), Some(5), 200),
        track("c", None, Some(9), 0),
    ];
    let after = clear_cache_by_ids(&tracks, &Vec::new());
    assert_eq!(after.len(), 3);
    for t in &after {
        assert!(t.file_path.is_none());
    }
    assert_eq!(get_cache_size(&after), "0 B");
}

#[test]
fn single_id_evicts_only_that_row() {
    let tracks = vec![
        track("a", Some("/c/a.mp3"), None, 100),
        track("b", Some("/c/b.mp3"), Some(5), 200),
        track("c", None, Some(9), 0),
    ];
    let ids = vec!["b".to_string()];
    let after = clear_cache_by_ids(&tracks, &ids);
    assert_eq!(after[0].file_path.as_deref(), Some("/c/a.mp3"));
    assert_eq!(after[0].file_size, 100);
    assert!(after[1].file_path.is_none());
    assert_eq!(after[2].song_id, "c");
    assert!(after[2].file_path.is_none());
    assert_eq!(get_cache_size(&after), "100 B");
}

#[test]
fn only_the_requested_cached_files_are_deleted() {
    let tracks = vec![
        track("a", Some("/c/a.mp3"), None, 100),
        track("b", Some("/c/b.mp3"), Some(5), 200),
        track("gone", None, None, 0),
    ];
    let ids = vec!["b".to_string(), "gone".to_string(), "absent".to_string()];
    assert_eq!(eviction_paths(&tracks, &ids), vec!["/c/b.mp3".to_string()]);
}

#[test]
fn empty_set_names_no_individual_files() {
    // The whole cache directory is removed instead.
    let tracks = vec![track("a", Some("/c/a.mp3"), None, 100)];
    let paths = eviction_paths(&tracks, &Vec::new());
    assert!(paths.is_empty());
}

#[test]
fn unknown_ids_change_nothing() {
    let tracks = vec![track("a", Some("/c/a.mp3"), None, 100)];
    let ids = vec!["zz".to_string()];
    let after = clear_cache_by_ids(&tracks, &ids);
    assert_eq!(after[0].file_path.as_deref(), Some("/c/a.mp3"));
    assert!(eviction_paths(&tracks, &ids).is_empty());
}
