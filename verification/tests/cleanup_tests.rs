use musicbox::cleanup::{
    parse_threshold_gb, plan_size_threshold_cleanup, select_for_threshold, setting_enabled,
    sort_tracks_by_played,
};
use musicbox::model::{Membership, TrackRecord};

fn track(id: &str, path: Option<&str>, played: Option<u64>, size: u64) -> TrackRecord {
    TrackRecord {
        song_id: id.to_string(),
        file_path: path.map(|p| p.to_string()),
        last_played_at: played,
        file_size: size,
    }
}

fn member(playlist: i64, id: &str, position: i64) -> Membership {
    Membership { playlist_id: playlist, song_id: id.to_string(), position }
}

#[test]
fn only_the_stored_word_true_enables_a_setting() {
    assert!(setting_enabled(&Some("true".to_string())));
    assert!(!setting_enabled(&Some("false".to_string())));
    assert!(!setting_enabled(&Some("True".to_string())));
    assert!(!setting_enabled(&Some("1".to_string())));
    assert!(!setting_enabled(&None));
}

#[test]
fn threshold_values_become_bytes() {
    const GIB: u64 = 1024 * 1024 * 1024;
    assert_eq!(parse_threshold_gb("1"), Some(GIB));
    assert_eq!(parse_threshold_gb("2"), Some(2 * GIB));
    assert_eq!(parse_threshold_gb("0"), Some(0));
    assert_eq!(parse_threshold_gb("0.5"), Some(GIB / 2));
    assert_eq!(parse_threshold_gb("0.25"), Some(GIB / 4));
    // 0.01 GiB at nano-gigabyte precision: floor(10_000_000 * 2^30 / 10^9).
    assert_eq!(parse_threshold_gb("0.01"), Some(10737418));
    assert_eq!(parse_threshold_gb("1.5"), Some(GIB + GIB / 2));
}

#[test]
fn malformed_thresholds_are_refused() {
    assert_eq!(parse_threshold_gb(""), None);
    assert_eq!(parse_threshold_gb("."), None);
    assert_eq!(parse_threshold_gb(".5"), None);
    assert_eq!(parse_threshold_gb("5."), None);
    assert_eq!(parse_threshold_gb("1.2.3"), None);
    assert_eq!(parse_threshold_gb("abc"), None);
    assert_eq!(parse_threshold_gb("-1"), None);
    assert_eq!(parse_threshold_gb("1e3"), None);
    assert_eq!(parse_threshold_gb("99999999999999999999"), None);
}

#[test]
fn sort_puts_never_played_first_then_oldest() {
    let tracks = vec![
        track("new", Some("/c/new.mp3"), Some(100), 1),
        track("never", Some("/c/never.mp3"), None, 2),
        track("old", Some("/c/old.mp3"), Some(10), 4),
    ];
    let sorted = sort_tracks_by_played(&tracks);
    let order: Vec<&str> = sorted.iter().map(|t| t.song_id.as_str()).collect();
    assert_eq!(order, vec!["never", "old", "new"]);
}

#[test]
fn selection_stops_once_the_total_fits() {
    let candidates = vec![
        track("never", Some("/c/never.mp3"), None, 400),
        track("old", Some("/c/old.mp3"), Some(10), 300),
        track("new", Some("/c/new.mp3"), Some(100), 300),
    ];
    // Total 1000; threshold 400: dropping the first two reaches 300.
    assert_eq!(
        select_for_threshold(&candidates, 400),
        vec!["never".to_string(), "old".to_string()]
    );
    // Already under the threshold: nothing goes.
    assert!(select_for_threshold(&candidates, 1000).is_empty());
    // Nothing suffices: everything goes.
    assert_eq!(select_for_threshold(&candidates, 0).len(), 3);
}

#[test]
fn threshold_plan_evicts_least_recently_played_first() {
    let tracks = vec![
        track("a", Some("/c/a.mp3"), Some(50), 500),
        track("b", Some("/c/b.mp3"), None, 200),
        track("c", Some("/c/c.mp3"), Some(10), 400),
        track("uncached", None, None, 999),
        track("empty", Some(""), None, 999),
    ];
    let members: Vec<Membership> = Vec::new();
    // Total 1100; evicting "b" (never played) then "c" (oldest) reaches 500.
    let ids = plan_size_threshold_cleanup(&tracks, &members, false, 600);
    assert_eq!(ids, vec!["b".to_string(), "c".to_string()]);
}

#[test]
fn threshold_plan_can_spare_playlist_tracks() {
    let tracks = vec![
        track("a", Some("/c/a.mp3"), Some(50), 500),
        track("b", Some("/c/b.mp3"), None, 200),
        track("c", Some("/c/c.mp3"), Some(10), 400),
    ];
    let members = vec![member(1, "b", 0), member(1, "c", 1)];
    // Only "a" is a candidate; its 500 bytes already fit under 600.
    assert!(plan_size_threshold_cleanup(&tracks, &members, true, 600).is_empty());
    // Under a tighter threshold it is the one evicted.
    assert_eq!(
        plan_size_threshold_cleanup(&tracks, &members, true, 100),
        vec!["a".to_string()]
    );
}
