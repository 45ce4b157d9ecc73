use musicbox::resolve::{encoded_cache_filename, resolve_cache_filename, sanitize_component};

#[test]
fn sanitization_strips_unsafe_characters() {
    assert_eq!(sanitize_component("a/b\\c:d*e?f\"g<h>i|j"), "abcdefghij");
    assert_eq!(sanitize_component("plain name"), "plain name");
    assert_eq!(sanitize_component(""), "");
    assert_eq!(sanitize_component("????"), "");
}

#[test]
fn filename_has_the_fixed_shape() {
    assert_eq!(
        resolve_cache_filename("42", "Title", "Artist"),
        "42_Title-Artist.mp3"
    );
    assert_eq!(
        resolve_cache_filename("7", "A/B: C?", "X|Y"),
        "7_AB C-XY.mp3"
    );
}

#[test]
fn resolution_is_idempotent() {
    let a = resolve_cache_filename("9", "Song", "Band");
    let b = resolve_cache_filename("9", "Song", "Band");
    assert_eq!(a, b);
}

#[test]
fn encoded_filename_is_url_safe() {
    // A space must come back percent-encoded, so the name is usable in a URL.
    assert_eq!(
        encoded_cache_filename("1", "a b", "c"),
        "1_a%20b-c.mp3"
    );
    assert_eq!(encoded_cache_filename("1", "ab", "c"), "1_ab-c.mp3");
}
