use musicbox::server::{
    classify_decoded_path, content_range_value, extract_request_path, plan_file_response,
    route_request, slice_range, str_contains_dotdot, str_has_prefix, FileResponse, PathClass,
    RequestRoute,
};

#[test]
fn path_extraction_strips_query_and_slashes() {
    assert_eq!(extract_request_path("/music_cache/a.mp3?t=1"), "music_cache/a.mp3");
    assert_eq!(extract_request_path("/music_cache/a.mp3"), "music_cache/a.mp3");
    assert_eq!(extract_request_path("///x"), "x");
    assert_eq!(extract_request_path("?q"), "");
    assert_eq!(extract_request_path(""), "");
}

#[test]
fn prefix_and_dotdot_checks() {
    assert!(str_has_prefix("music_cache/a.mp3", "music_cache/"));
    assert!(!str_has_prefix("music_cache", "music_cache/"));
    assert!(str_contains_dotdot("a/../b"));
    assert!(str_contains_dotdot(".."));
    assert!(!str_contains_dotdot("a.b.c"));
    assert!(!str_contains_dotdot("."));
}

#[test]
fn traversal_is_rejected_whatever_the_prefix() {
    assert_eq!(classify_decoded_path("music_cache/../db"), PathClass::Traversal);
    assert_eq!(classify_decoded_path("cover_cache/.."), PathClass::Traversal);
    assert_eq!(classify_decoded_path("../etc/passwd"), PathClass::Traversal);
    assert_eq!(route_request("/music_cache/%2E%2E/db"), RequestRoute::BadRequest);
    assert_eq!(route_request("/music_cache/../db"), RequestRoute::BadRequest);
}

#[test]
fn paths_outside_the_allow_list_are_forbidden() {
    assert_eq!(classify_decoded_path("other/a.mp3"), PathClass::Outside);
    assert_eq!(classify_decoded_path("music_cache"), PathClass::Outside);
    assert_eq!(classify_decoded_path(""), PathClass::Outside);
    assert_eq!(route_request("/settings.db"), RequestRoute::Forbidden);
    assert_eq!(route_request("/Music_Cache/a.mp3"), RequestRoute::Forbidden);
}

#[test]
fn allowed_paths_are_served_decoded() {
    assert_eq!(
        route_request("/music_cache/a%20b.mp3?seek=0"),
        RequestRoute::Serve("music_cache/a b.mp3".to_string())
    );
    assert_eq!(
        route_request("/cover_cache/c.jpg"),
        RequestRoute::Serve("cover_cache/c.jpg".to_string())
    );
}

#[test]
fn decoding_handles_multibyte_and_rejects_bad_sequences() {
    assert_eq!(
        route_request("/cover_cache/caf%C3%A9.jpg"),
        RequestRoute::Serve("cover_cache/café.jpg".to_string())
    );
    // A percent-sequence that is not valid UTF-8 cannot be decoded.
    assert_eq!(route_request("/music_cache/%FF.mp3"), RequestRoute::BadRequest);
}

#[test]
fn response_plan_follows_the_range_header() {
    assert_eq!(plan_file_response(1000, None), FileResponse::Full);
    assert_eq!(
        plan_file_response(1000, Some("bytes=1-2")),
        FileResponse::Partial { start: 1, end: 2 }
    );
    assert_eq!(
        plan_file_response(1000, Some("bytes=0-")),
        FileResponse::Partial { start: 0, end: 999 }
    );
    // Anything malformed or out of bounds falls back to the full file.
    assert_eq!(plan_file_response(1000, Some("bytes=5-4")), FileResponse::Full);
    assert_eq!(plan_file_response(1000, Some("bytes=0-1000")), FileResponse::Full);
    assert_eq!(plan_file_response(1000, Some("units=0-1")), FileResponse::Full);
}

#[test]
fn content_range_header_is_exact() {
    assert_eq!(content_range_value(0, 499, 1000), "bytes 0-499/1000");
    assert_eq!(content_range_value(0, 999, 1000), "bytes 0-999/1000");
    assert_eq!(content_range_value(7, 7, 8), "bytes 7-7/8");
}

#[test]
fn sliced_body_is_byte_exact() {
    let data: Vec<u8> = (0u8..10).collect();
    assert_eq!(slice_range(&data, 2, 5), vec![2u8, 3, 4, 5]);
    assert_eq!(slice_range(&data, 0, 9), data);
    assert_eq!(slice_range(&data, 9, 9), vec![9u8]);
}

#[test]
fn open_ended_range_serves_the_whole_file() {
    let data: Vec<u8> = (0u8..8).collect();
    let size = data.len() as u64;
    match plan_file_response(size, Some("bytes=0-")) {
        FileResponse::Partial { start, end } => {
            assert_eq!((start, end), (0, size - 1));
            assert_eq!(slice_range(&data, start as usize, end as usize), data);
            assert_eq!(content_range_value(start, end, size), "bytes 0-7/8");
        },
        FileResponse::Full => panic!("expected a partial response"),
    }
}
