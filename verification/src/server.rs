//! Request handling for the loopback media server: extracting and decoding
//! the path of a request, the traversal and allow-list gate, and planning a
//! full or partial response against the file's size.

use vstd::prelude::*;
use crate::range::spec_parse_range;
use crate::range::parse_range;
use crate::textfmt::dec_digits;
use crate::textfmt::u64_to_string;

verus! {

/// Index of the first `?` in `s`, or its length when there is none.
pub open spec fn query_start(s: Seq<char>) -> int
    decreases s.len(),
{
    if s.len() == 0 {
        0
    } else if s[0] == '?' {
        0
    } else {
        1 + query_start(s.skip(1))
    }
}

/// The number of slashes `s` starts with.
pub open spec fn leading_slashes(s: Seq<char>) -> int
    decreases s.len(),
{
    if s.len() == 0 {
        0
    } else if s[0] != '/' {
        0
    } else {
        1 + leading_slashes(s.skip(1))
    }
}

/// `query_start` points at the first `?`, or past the end without one.
pub proof fn lemma_query_start(s: Seq<char>)
    ensures
        0 <= query_start(s) <= s.len(),
        forall|j: int| 0 <= j < query_start(s) ==> s[j] != '?',
        query_start(s) == s.len() || s[query_start(s)] == '?',
    decreases s.len(),
{
    if s.len() != 0 && s[0] != '?' {
        lemma_query_start(s.skip(1));
        assert forall|j: int| 0 <= j < query_start(s) implies s[j] != '?' by {
            if j > 0 {
                assert(s.skip(1)[j - 1] != '?');
            }
        }
        if query_start(s) < s.len() {
            assert(s.skip(1)[query_start(s.skip(1))] == s[query_start(s)]);
        }
    }
}

/// Any position with no `?` before it and a `?` (or the end) at it is the
/// first one.
proof fn lemma_query_start_is(s: Seq<char>, q: int)
    requires
        0 <= q <= s.len(),
        forall|j: int| 0 <= j < q ==> s[j] != '?',
        q == s.len() || s[q] == '?',
    ensures
        query_start(s) == q,
{
    lemma_query_start(s);
    if query_start(s) < q {
        assert(s[query_start(s)] != '?');
    }
    if q < query_start(s) {
        assert(s[q] != '?');
    }
}

/// `leading_slashes` counts the unbroken run of slashes at the front.
pub proof fn lemma_leading_slashes(s: Seq<char>)
    ensures
        0 <= leading_slashes(s) <= s.len(),
        forall|j: int| 0 <= j < leading_slashes(s) ==> s[j] == '/',
        leading_slashes(s) == s.len() || s[leading_slashes(s)] != '/',
    decreases s.len(),
{
    if s.len() != 0 && s[0] == '/' {
        lemma_leading_slashes(s.skip(1));
        assert forall|j: int| 0 <= j < leading_slashes(s) implies s[j] == '/' by {
            if j > 0 {
                assert(s.skip(1)[j - 1] == '/');
            }
        }
        if leading_slashes(s) < s.len() {
            assert(s.skip(1)[leading_slashes(s.skip(1))] == s[leading_slashes(s)]);
        }
    }
}

/// Any position ending the unbroken run of slashes is the count.
proof fn lemma_leading_slashes_is(s: Seq<char>, k: int)
    requires
        0 <= k <= s.len(),
        forall|j: int| 0 <= j < k ==> s[j] == '/',
        k == s.len() || s[k] != '/',
    ensures
        leading_slashes(s) == k,
{
    lemma_leading_slashes(s);
    if leading_slashes(s) < k {
        assert(s[leading_slashes(s)] == '/');
    }
    if k < leading_slashes(s) {
        assert(s[k] == '/');
    }
}

/// The still-encoded path of a request: what stands before the query part,
/// with its leading slashes stripped.
pub open spec fn spec_request_path(url: Seq<char>) -> Seq<char> {
    let t = url.take(query_start(url));
    t.skip(leading_slashes(t))
}

/// Extracts the still-encoded request path from a request's URL.
pub fn extract_request_path<'a>(url: &'a str) -> (r: &'a str)
    ensures
        r@ == spec_request_path(url@),
{
    let n = url.unicode_len();
    let mut q: usize = 0;
    while q < n && url.get_char(q) != '?'
        invariant
            0 <= q <= n,
            n == url@.len(),
            forall|j: int| 0 <= j < q ==> url@[j] != '?',
        decreases n - q,
    {
        q = q + 1;
    }
    proof {
        lemma_query_start_is(url@, q as int);
    }
    let mut k: usize = 0;
    while k < q && url.get_char(k) == '/'
        invariant
            0 <= k <= q <= n,
            n == url@.len(),
            q as int == query_start(url@),
            forall|j: int| 0 <= j < k ==> url@[j] == '/',
        decreases q - k,
    {
        k = k + 1;
    }
    proof {
        let t = url@.take(q as int);
        assert(forall|j: int| 0 <= j < k ==> t[j] == '/');
        lemma_leading_slashes_is(t, k as int);
        assert(t.skip(k as int) =~= url@.subrange(k as int, q as int));
    }
    url.substring_char(k, q)
}

/// Whether `s` starts with `p`.
pub open spec fn has_prefix(s: Seq<char>, p: Seq<char>) -> bool {
    p.len() <= s.len() && s.take(p.len() as int) == p
}

/// Whether the string holds two consecutive dots anywhere.
pub open spec fn contains_dotdot(s: Seq<char>) -> bool {
    exists|i: int| 0 <= i && i + 2 <= s.len() && #[trigger] s[i] == '.' && s[i + 1] == '.'
}

/// Checks whether `s` starts with `p`.
pub fn str_has_prefix(s: &str, p: &str) -> (r: bool)
    ensures
        r == has_prefix(s@, p@),
{
    let np = p.unicode_len();
    let ns = s.unicode_len();
    if np > ns {
        return false;
    }
    let mut i: usize = 0;
    while i < np
        invariant
            0 <= i <= np <= ns,
            np == p@.len(),
            ns == s@.len(),
            forall|j: int| 0 <= j < i ==> s@[j] == p@[j],
        decreases np - i,
    {
        if s.get_char(i) != p.get_char(i) {
            proof {
                assert(s@.take(np as int)[i as int] != p@[i as int]);
            }
            return false;
        }
        i = i + 1;
    }
    proof {
        assert(s@.take(np as int) =~= p@);
    }
    true
}

/// Checks whether `s` holds two consecutive dots.
pub fn str_contains_dotdot(s: &str) -> (r: bool)
    ensures
        r == contains_dotdot(s@),
{
    let n = s.unicode_len();
    if n < 2 {
        return false;
    }
    let mut i: usize = 0;
    let mut prev = s.get_char(0);
    while i + 1 < n
        invariant
            0 <= i,
            i + 1 <= n,
            n == s@.len(),
            n >= 2,
            prev == s@[i as int],
            forall|j: int| 0 <= j && j + 2 <= i + 1 ==> !(#[trigger] s@[j] == '.' && s@[j + 1]
                == '.'),
        decreases n - i,
    {
        let c = s.get_char(i + 1);
        if prev == '.' && c == '.' {
            return true;
        }
        prev = c;
        i = i + 1;
    }
    false
}

/// How the security gate classifies a decoded request path.
#[derive(Clone, Copy, PartialEq, Eq, Debug)]
pub enum PathClass {
    /// Holds `..`: rejected as malformed before any routing.
    Traversal,
    /// Outside the two allow-listed cache directories.
    Outside,
    /// Under one of the allow-listed cache directories.
    Allowed,
}

/// The security gate on a decoded path: a traversal attempt is rejected
/// outright, everything not under the two cache directories is forbidden.
pub open spec fn spec_path_class(s: Seq<char>) -> PathClass {
    if contains_dotdot(s) {
        PathClass::Traversal
    } else if has_prefix(s, "music_cache/"@) || has_prefix(s, "cover_cache/"@) {
        PathClass::Allowed
    } else {
        PathClass::Outside
    }
}

/// Classifies a decoded request path against the traversal check and the
/// directory allow-list.
pub fn classify_decoded_path(decoded: &str) -> (r: PathClass)
    ensures
        r == spec_path_class(decoded@),
{
    if str_contains_dotdot(decoded) {
        PathClass::Traversal
    } else if str_has_prefix(decoded, "music_cache/") || str_has_prefix(decoded, "cover_cache/") {
        PathClass::Allowed
    } else {
        PathClass::Outside
    }
}

/// What `urlencoding::decode` returns: `None` exactly where decoding fails,
/// a function of the input characters alone.
pub uninterp spec fn url_decoded(s: Seq<char>) -> Option<Seq<char>>;

/// Relies on `urlencoding::decode`: percent-decodes `%XX` sequences, fails
/// only when the decoded bytes are not valid UTF-8, and depends on the
/// input alone.
#[verifier::external_body]
fn url_decode(s: &str) -> (r: Option<String>)
    ensures
        r is Some <==> url_decoded(s@) is Some,
        r is Some ==> r->0@ == url_decoded(s@)->0,
{
    match urlencoding::decode(s) {
        Ok(cow) => Some(cow.into_owned()),
        Err(_) => None,
    }
}

/// The decoded path of a request URL, when it decodes at all.
pub open spec fn decoded_request_path(url: Seq<char>) -> Option<Seq<char>> {
    url_decoded(spec_request_path(url))
}

/// Where a request is sent after decoding and the security gate.
#[derive(Debug, PartialEq, Eq)]
pub enum RequestRoute {
    /// 400: the path did not decode, or held `..`.
    BadRequest,
    /// 403: the decoded path lies outside the allow-listed directories.
    Forbidden,
    /// The decoded relative path to serve from under the cache root.
    Serve(String),
}

/// Routes a request URL: extracts the path, decodes it, and applies the
/// security gate. Traversal attempts and undecodable paths are rejected as
/// bad requests; paths outside the allow-list are forbidden.
pub fn route_request(url: &str) -> (r: RequestRoute)
    ensures
        r is BadRequest <==> (decoded_request_path(url@) is None || spec_path_class(
            decoded_request_path(url@)->0,
        ) is Traversal),
        r is Forbidden <==> (decoded_request_path(url@) is Some && spec_path_class(
            decoded_request_path(url@)->0,
        ) is Outside),
        r is Serve <==> (decoded_request_path(url@) is Some && spec_path_class(
            decoded_request_path(url@)->0,
        ) is Allowed),
        r is Serve ==> r->Serve_0@ == decoded_request_path(url@)->0,
{
    let raw = extract_request_path(url);
    let decoded = match url_decode(raw) {
        Some(d) => d,
        None => {
            return RequestRoute::BadRequest;
        },
    };
    match classify_decoded_path(decoded.as_str()) {
        PathClass::Traversal => RequestRoute::BadRequest,
        PathClass::Outside => RequestRoute::Forbidden,
        PathClass::Allowed => RequestRoute::Serve(decoded),
    }
}

/// The `Content-Range` header value for a partial response.
pub open spec fn spec_content_range(start: u64, end: u64, total_size: u64) -> Seq<char> {
    "bytes "@ + dec_digits(start as nat) + "-"@ + dec_digits(end as nat) + "/"@ + dec_digits(
        total_size as nat,
    )
}

/// Builds the `Content-Range` header value `bytes {start}-{end}/{total}`.
pub fn content_range_value(start: u64, end: u64, total_size: u64) -> (r: String)
    ensures
        r@ == spec_content_range(start, end, total_size),
{
    let mut r = String::from_str("bytes ");
    r.append(u64_to_string(start).as_str());
    r.append("-");
    r.append(u64_to_string(end).as_str());
    r.append("/");
    r.append(u64_to_string(total_size).as_str());
    proof {
        assert(r@ =~= spec_content_range(start, end, total_size));
    }
    r
}

/// How a found file is served: everything, or one byte range of it.
#[derive(Debug, Clone, Copy, PartialEq, Eq)]
pub enum FileResponse {
    /// 200 with the whole file.
    Full,
    /// 206 with the bytes in `[start, end]`.
    Partial { start: u64, end: u64 },
}

/// Plans the response for a file of `total_size` bytes against the `Range`
/// header, when the request carried one. Partial content is served exactly
/// for a well-formed in-bounds range; any other header falls back to the
/// full file.
pub fn plan_file_response(total_size: u64, range_header: Option<&str>) -> (r: FileResponse)
    ensures
        match range_header {
            Some(h) => match spec_parse_range(h@, total_size) {
                Some(interval) => r == (FileResponse::Partial {
                    start: interval.0,
                    end: interval.1,
                }),
                None => r is Full,
            },
            None => r is Full,
        },
{
    match range_header {
        Some(h) => match parse_range(h, total_size) {
            Some((start, end)) => FileResponse::Partial { start, end },
            None => FileResponse::Full,
        },
        None => FileResponse::Full,
    }
}

/// The canonical header requesting exactly the bytes in `[a, b]`.
pub open spec fn spec_range_header(a: u64, b: u64) -> Seq<char> {
    "bytes="@ + dec_digits(a as nat) + "-"@ + dec_digits(b as nat)
}

/// A header `bytes=a-b` parses to exactly the interval `[a, b]` when it is
/// well formed and inside the file — the response plan for it is then
/// partial content of length `b - a + 1` — and is refused entirely when
/// `a > b` or `b` lies past the end, so such a request falls back to the
/// full file.
pub proof fn lemma_explicit_range_header(a: u64, b: u64, total_size: u64)
    ensures
        spec_parse_range(spec_range_header(a, b), total_size) == (if a <= b && b < total_size {
            Some((a, b))
        } else {
            None
        }),
{
    reveal_strlit("bytes=");
    reveal_strlit("-");
    let p = "bytes="@;
    let da = dec_digits(a as nat);
    let db = dec_digits(b as nat);
    let h = spec_range_header(a, b);
    crate::textfmt::lemma_dec_digits_value(a as nat);
    crate::textfmt::lemma_dec_digits_value(b as nat);
    assert(p.len() == 6);
    assert("-"@.len() == 1);
    assert(h.len() == 6 + da.len() + 1 + db.len());
    assert(crate::range::has_bytes_prefix(h));

    let rest = h.skip(6);
    let k = da.len() as int;
    assert(rest =~= da + "-"@ + db);
    assert(rest[k] == '-');
    assert forall|j: int| 0 <= j < rest.len() && j != k implies rest[j] != '-' by {
        if j < k {
            assert(crate::range::is_digit_char(da[j]));
        } else {
            assert(rest[j] == db[j - k - 1]);
            assert(crate::range::is_digit_char(db[j - k - 1]));
        }
    }
    let kc = choose|kc: int|
        0 <= kc < rest.len() && rest[kc] == '-' && (forall|j: int|
            0 <= j < rest.len() && j != kc ==> rest[j] != '-');
    assert(kc == k);
    assert(crate::range::single_dash_split(rest) == Some((rest.take(k), rest.skip(k + 1))));
    assert(rest.take(k) =~= da);
    assert(rest.skip(k + 1) =~= db);
    assert(crate::range::spec_parse_u64(da) == Some(a));
    assert(crate::range::spec_parse_u64(db) == Some(b));
}

/// The security gate never lets a traversal attempt or an out-of-tree path
/// through: a decoded path holding `..` is always rejected as a bad
/// request, whatever it starts with, and a path under neither cache
/// directory is always forbidden.
pub proof fn lemma_gate_rejections(decoded: Seq<char>)
    ensures
        contains_dotdot(decoded) ==> spec_path_class(decoded) is Traversal,
        !contains_dotdot(decoded) && !has_prefix(decoded, "music_cache/"@) && !has_prefix(
            decoded,
            "cover_cache/"@,
        ) ==> spec_path_class(decoded) is Outside,
{
}

/// `bytes=0-` on a non-empty file of `total_size` bytes parses to the whole
/// file: the interval `[0, total_size - 1]`, whose slice is the file itself,
/// served under `Content-Range: bytes 0-{total_size - 1}/{total_size}`.
pub proof fn lemma_open_range_serves_whole_file(total_size: u64, data: Seq<u8>)
    requires
        total_size > 0,
        data.len() == total_size,
    ensures
        spec_parse_range("bytes=0-"@, total_size) == Some((0u64, (total_size - 1) as u64)),
        data.subrange(0, (total_size - 1) + 1) == data,
        spec_content_range(0u64, (total_size - 1) as u64, total_size) == "bytes 0-"@ + dec_digits(
            (total_size - 1) as nat,
        ) + "/"@ + dec_digits(total_size as nat),
{
    reveal_strlit("bytes=0-");
    reveal_strlit("bytes 0-");
    reveal_strlit("bytes ");
    reveal_strlit("-");
    reveal_strlit("0");
    let h = "bytes=0-"@;
    assert(h.len() == 8);
    assert(crate::range::has_bytes_prefix(h));
    let rest = h.skip(6);
    assert(rest.len() == 2);
    assert(rest[0] == '0' && rest[1] == '-');
    assert forall|j: int| 0 <= j < rest.len() && j != 1 implies rest[j] != '-' by {
        assert(rest[0] == '0');
    }
    let kc = choose|kc: int|
        0 <= kc < rest.len() && rest[kc] == '-' && (forall|j: int|
            0 <= j < rest.len() && j != kc ==> rest[j] != '-');
    assert(kc == 1);
    assert(crate::range::single_dash_split(rest) == Some((rest.take(1), rest.skip(2))));
    let d0 = rest.take(1);
    assert(d0 =~= seq!['0']);
    assert(crate::range::is_digit_char('0'));
    assert(crate::range::all_digits(d0));
    assert(d0.drop_last() =~= Seq::<char>::empty());
    crate::textfmt::lemma_digit_char_value(0);
    assert(crate::textfmt::digit_char(0) == '0');
    assert(crate::range::digit_value('0') == 0);
    assert(crate::range::digits_value(Seq::<char>::empty()) == 0);
    assert(crate::range::digits_value(d0) == crate::range::digits_value(d0.drop_last()) * 10
        + crate::range::digit_value(d0.last()));
    assert(crate::range::digits_value(d0) == 0);
    assert(crate::range::spec_parse_u64(d0) == Some(0u64));
    assert(rest.skip(2) =~= Seq::<char>::empty());
    assert(crate::range::spec_range_end(rest.skip(2), total_size) == Some(
        (total_size - 1) as u64,
    ));
    assert(data.subrange(0, (total_size - 1) + 1) =~= data);
    assert(dec_digits(0) =~= seq!['0']);
    assert("bytes 0-"@ =~= "bytes "@ + dec_digits(0) + "-"@);
    assert(spec_content_range(0u64, (total_size - 1) as u64, total_size) =~= "bytes 0-"@
        + dec_digits((total_size - 1) as nat) + "/"@ + dec_digits(total_size as nat));
}

/// Copies the inclusive byte range `[start, end]` out of a file's bytes.
pub fn slice_range(data: &Vec<u8>, start: usize, end: usize) -> (r: Vec<u8>)
    requires
        start <= end < data@.len(),
    ensures
        r@ == data@.subrange(start as int, end as int + 1),
{
    let n = data.len();
    let s = vstd::slice::slice_subrange(data.as_slice(), start, end + 1);
    vstd::slice::slice_to_vec(s)
}

} // verus!
