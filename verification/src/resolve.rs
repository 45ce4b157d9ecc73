//! Deterministic mapping from a song identifier plus metadata to the cache
//! file name: `{song_id}_{sanitized_title}-{sanitized_artist}.mp3`, where
//! sanitization strips the characters that are unsafe in file names.

use vstd::prelude::*;

verus! {

/// A character stripped from titles and artists before they enter a file
/// name: unsafe on the common target filesystems.
pub open spec fn is_forbidden_char(c: char) -> bool {
    c == '/' || c == '\\' || c == ':' || c == '*' || c == '?' || c == '"' || c == '<' || c == '>'
        || c == '|'
}

/// `s` with every filesystem-unsafe character removed.
pub open spec fn sanitized(s: Seq<char>) -> Seq<char> {
    s.filter(|c: char| !is_forbidden_char(c))
}

/// The cache file name a song resolves to.
pub open spec fn spec_cache_filename(song_id: Seq<char>, title: Seq<char>, artist: Seq<char>)
    -> Seq<char> {
    song_id + "_"@ + sanitized(title) + "-"@ + sanitized(artist) + ".mp3"@
}

/// Relies on `String::push`: appends the given character to the end of the
/// string.
#[verifier::external_body]
fn push_char(s: &mut String, c: char)
    ensures
        final (s)@ == old(s)@.push(c),
{
    s.push(c);
}

/// Removes the filesystem-unsafe characters from `s`.
pub fn sanitize_component(s: &str) -> (r: String)
    ensures
        r@ == sanitized(s@),
{
    let n = s.unicode_len();
    let mut r = String::new();
    let mut i: usize = 0;
    while i < n
        invariant
            0 <= i <= n,
            n == s@.len(),
            r@ == sanitized(s@.take(i as int)),
        decreases n - i,
    {
        let c = s.get_char(i);
        proof {
            reveal(Seq::filter);
            assert(s@.take(i + 1).drop_last() =~= s@.take(i as int));
            assert(s@.take(i + 1).last() == s@[i as int]);
        }
        if !(c == '/' || c == '\\' || c == ':' || c == '*' || c == '?' || c == '"' || c == '<'
            || c == '>' || c == '|') {
            push_char(&mut r, c);
        }
        assert(r@ == sanitized(s@.take(i + 1)));
        i = i + 1;
    }
    proof {
        assert(s@.take(n as int) =~= s@);
    }
    r
}

/// Resolves a song to its cache file name. Deterministic and free of
/// lookups, so a repeated call on the same inputs names the same file.
pub fn resolve_cache_filename(song_id: &str, title: &str, artist: &str) -> (r: String)
    ensures
        r@ == spec_cache_filename(song_id@, title@, artist@),
{
    let mut r = String::from_str(song_id);
    r.append("_");
    let t = sanitize_component(title);
    r.append(t.as_str());
    r.append("-");
    let a = sanitize_component(artist);
    r.append(a.as_str());
    r.append(".mp3");
    proof {
        assert(r@ =~= spec_cache_filename(song_id@, title@, artist@));
    }
    r
}

/// What `urlencoding::encode` returns: a function of the input characters
/// alone.
pub uninterp spec fn url_encoded(s: Seq<char>) -> Seq<char>;

/// Relies on `urlencoding::encode`: percent-encodes every character other
/// than ASCII alphanumerics and `-`, `_`, `.`, `~`; the result depends on
/// the input alone.
#[verifier::external_body]
fn url_encode(s: &str) -> (r: String)
    ensures
        r@ == url_encoded(s@),
{
    urlencoding::encode(s).into_owned()
}

/// The URL-encoded cache file name handed back to the player, which requests
/// it from the media server.
pub fn encoded_cache_filename(song_id: &str, title: &str, artist: &str) -> (r: String)
    ensures
        r@ == url_encoded(spec_cache_filename(song_id@, title@, artist@)),
{
    let name = resolve_cache_filename(song_id, title, artist);
    url_encode(name.as_str())
}

} // verus!
