//! Hub cache layout, path-safety rules, and the decisions a download makes.

use vstd::prelude::*;

use crate::text::{
    chars_of, decimal, hex_encode, hex_lower, is_hex_char, push_char, push_decimal, push_str,
    string_from_chars, trim_char, trim_char_vec,
};

verus! {

/// Errors that can occur while resolving, downloading, or caching Hub files.
///
/// Transport and filesystem failures carry their message as text.
#[derive(Debug, Clone, PartialEq, Eq)]
pub enum HubError {
    /// The local cache directory could not be determined or created.
    CacheDir(String),
    /// A network request failed.
    Http(String),
    /// A filesystem operation failed at `path`.
    Io { path: String, message: String },
    /// The Hub API returned a response that could not be parsed.
    Api(String),
    /// The Hub API returned a non-success status code.
    Status { url: String, status: u16 },
    /// A downloaded file's SHA256 digest did not match the expected value.
    HashMismatch { path: String, expected: String, actual: String },
    /// A repository id was not in the expected `owner/name` or `name` form.
    InvalidRepoId(String),
    /// A filename or server-provided path was unsafe.
    InvalidPath(String),
    /// Offline mode and the requested file is not cached.
    Offline { repo_id: String, filename: String },
}

/// What one character of a repo id becomes in its directory name.
pub open spec fn sanitized_piece(c: char) -> Seq<char> {
    if c == '/' { seq!['-', '-'] } else { seq![c] }
}

/// `s` with every `/` replaced by `--`.
pub open spec fn sanitized(s: Seq<char>) -> Seq<char>
    decreases s.len(),
{
    if s.len() == 0 {
        Seq::empty()
    } else {
        sanitized(s.drop_last()) + sanitized_piece(s.last())
    }
}

/// Converts a Hub repo id (e.g. `org/name`) into a filesystem-safe directory
/// component.
pub fn sanitize_repo_id(repo_id: &str) -> (out: String)
    ensures
        out@ == sanitized(repo_id@),
{
    let cs = chars_of(repo_id);
    let mut out = String::new();
    let mut i: usize = 0;
    while i < cs.len()
        invariant
            i <= cs.len(),
            out@ == sanitized(cs@.take(i as int)),
        decreases cs.len() - i,
    {
        let c = cs[i];
        proof {
            assert(cs@.take(i + 1).drop_last() =~= cs@.take(i as int));
        }
        if c == '/' {
            push_char(&mut out, '-');
            push_char(&mut out, '-');
        } else {
            push_char(&mut out, c);
        }
        proof {
            assert(out@ =~= sanitized(cs@.take(i as int)) + sanitized_piece(c));
        }
        i = i + 1;
    }
    proof {
        assert(cs@.take(cs@.len() as int) =~= cs@);
    }
    out
}

/// Path separators: `/` and `\`.
pub open spec fn is_sep(c: char) -> bool {
    c == '/' || c == '\\'
}

/// ASCII letters.
pub open spec fn is_ascii_alpha(c: char) -> bool {
    ('a' <= c && c <= 'z') || ('A' <= c && c <= 'Z')
}

/// `s[i..j]` is a whole segment between separators (or the ends of `s`).
pub open spec fn is_segment(s: Seq<char>, i: int, j: int) -> bool {
    &&& 0 <= i <= j <= s.len()
    &&& (i == 0 || is_sep(s[i - 1]))
    &&& (j == s.len() || is_sep(s[j]))
    &&& forall|k: int| i <= k < j ==> !is_sep(#[trigger] s[k])
}

/// `t` is `.` or `..`.
pub open spec fn is_dot_segment(t: Seq<char>) -> bool {
    t =~= seq!['.'] || t =~= seq!['.', '.']
}

/// `s` starts with a Windows drive prefix such as `C:`.
pub open spec fn has_drive_prefix(s: Seq<char>) -> bool {
    s.len() >= 2 && is_ascii_alpha(s[0]) && s[1] == ':'
}

/// `s` holds a drive prefix, or a `.`/`..` segment when split on `/` and `\`.
pub open spec fn unsafe_path(s: Seq<char>) -> bool {
    has_drive_prefix(s) || exists|i: int, j: int|
        is_segment(s, i, j) && #[trigger] is_dot_segment(s.subrange(i, j))
}

fn char_is_ascii_alpha(c: char) -> (b: bool)
    ensures
        b == is_ascii_alpha(c),
{
    ('a' <= c && c <= 'z') || ('A' <= c && c <= 'Z')
}

/// Returns true if `s` contains a `..` or `.` component, or a Windows drive
/// prefix (`C:`), treating both `/` and `\` as separators.
fn has_unsafe_segment(s: &[char]) -> (b: bool)
    ensures
        b == unsafe_path(s@),
{
    if s.len() >= 2 && s[1] == ':' && char_is_ascii_alpha(s[0]) {
        return true;
    }
    let mut start: usize = 0;
    let mut i: usize = 0;
    while i <= s.len()
        invariant
            start <= i <= s.len() + 1,
            i <= s.len() ==> start <= i,
            i <= s.len() ==> (start == 0 || is_sep(s@[start - 1])),
            i <= s.len() ==> forall|k: int| start <= k < i ==> !is_sep(#[trigger] s@[k]),
            forall|a: int, b: int|
                is_segment(s@, a, b) && b < i && #[trigger] is_dot_segment(s@.subrange(a, b))
                    ==> false,
            !has_drive_prefix(s@),
        decreases s.len() + 1 - i,
    {
        if i == s.len() || s[i] == '/' || s[i] == '\\' {
            let len = i - start;
            let dot = (len == 1 && s[start] == '.') || (len == 2 && s[start] == '.' && s[start
                + 1] == '.');
            proof {
                assert(is_segment(s@, start as int, i as int));
                if dot {
                    assert(is_dot_segment(s@.subrange(start as int, i as int)));
                } else {
                    assert(!is_dot_segment(s@.subrange(start as int, i as int))) by {
                        let t = s@.subrange(start as int, i as int);
                        if t =~= seq!['.'] {
                            assert(t.len() == 1 && t[0] == s@[start as int]);
                        }
                        if t =~= seq!['.', '.'] {
                            assert(t.len() == 2 && t[0] == s@[start as int] && t[1] == s@[start
                                + 1]);
                        }
                    }
                }
                assert forall|a: int, b: int|
                    is_segment(s@, a, b) && b == i && #[trigger] is_dot_segment(
                        s@.subrange(a, b),
                    ) implies dot by {
                    if a < start {
                        assert(!is_sep(s@[start - 1]));
                    } else if a > start {
                        assert(!is_sep(s@[a - 1]));
                    }
                }
            }
            if dot {
                return true;
            }
            if i == s.len() {
                return false;
            }
            start = i + 1;
        }
        i = i + 1;
    }
    false
}

/// `s` is acceptable as a repo id.
pub open spec fn valid_repo_id(s: Seq<char>) -> bool {
    &&& s.len() > 0
    &&& s[0] != '/'
    &&& s.last() != '/'
    &&& !unsafe_path(s)
}

/// Validates a repo id, rejecting anything that could escape the cache root.
///
/// Rejects empty ids, leading/trailing slashes, `.`/`..` path segments, and
/// Windows-style drive prefixes (e.g. `C:\...`).
pub fn validate_repo_id(repo_id: &str) -> (r: Result<(), HubError>)
    ensures
        r is Ok <==> valid_repo_id(repo_id@),
        r matches Err(e) ==> e matches HubError::InvalidRepoId(id) && id@ == repo_id@,
{
    let cs = chars_of(repo_id);
    if cs.len() == 0 || cs[0] == '/' || cs[cs.len() - 1] == '/' {
        return Err(HubError::InvalidRepoId(repo_id.to_owned()));
    }
    if has_unsafe_segment(cs.as_slice()) {
        return Err(HubError::InvalidRepoId(repo_id.to_owned()));
    }
    Ok(())
}

/// `s` is acceptable as a relative path inside a snapshot directory.
pub open spec fn valid_relative_path(s: Seq<char>) -> bool {
    &&& s.len() > 0
    &&& !is_sep(s[0])
    &&& !unsafe_path(s)
}

/// Validates a relative filename before it is joined into a cache directory.
///
/// Rejects empty names, absolute paths, drive-letter prefixes, and any `.` or
/// `..` segment so a malicious name cannot write outside the snapshot dir.
pub fn validate_relative_path(filename: &str) -> (r: Result<(), HubError>)
    ensures
        r is Ok <==> valid_relative_path(filename@),
        r matches Err(e) ==> e matches HubError::InvalidPath(p) && p@ == filename@,
{
    let cs = chars_of(filename);
    if cs.len() == 0 {
        return Err(HubError::InvalidPath(filename.to_owned()));
    }
    if cs[0] == '/' || cs[0] == '\\' {
        return Err(HubError::InvalidPath(filename.to_owned()));
    }
    if has_unsafe_segment(cs.as_slice()) {
        return Err(HubError::InvalidPath(filename.to_owned()));
    }
    Ok(())
}


/// The revision used when none is given.
pub const DEFAULT_REVISION: &'static str = "main";

/// The Hub endpoint used when none is given.
pub const DEFAULT_ENDPOINT: &'static str = "https://huggingface.co";

/// The shape check a download applies to a repo id before any request: not
/// empty, and neither starting nor ending with `/`.
pub open spec fn repo_id_shape_ok(s: Seq<char>) -> bool {
    s.len() > 0 && s[0] != '/' && s.last() != '/'
}

/// Checks the shape of a repo id before a download.
pub fn validate_repo_id_shape(repo_id: &str) -> (r: Result<(), HubError>)
    ensures
        r is Ok <==> repo_id_shape_ok(repo_id@),
        r matches Err(e) ==> e matches HubError::InvalidRepoId(id) && id@ == repo_id@,
{
    let cs = chars_of(repo_id);
    if cs.len() == 0 || cs[0] == '/' || cs[cs.len() - 1] == '/' {
        return Err(HubError::InvalidRepoId(repo_id.to_owned()));
    }
    Ok(())
}

/// `{endpoint}/{repo_id}/resolve/{revision}/{filename}`.
pub open spec fn resolve_url_spec(
    endpoint: Seq<char>,
    repo_id: Seq<char>,
    revision: Seq<char>,
    filename: Seq<char>,
) -> Seq<char> {
    endpoint + seq!['/'] + repo_id + "/resolve/"@ + revision + seq!['/'] + filename
}

/// The download URL of `filename` in `repo_id` at `revision`.
pub fn resolve_url(endpoint: &str, repo_id: &str, revision: &str, filename: &str) -> (url: String)
    ensures
        url@ == resolve_url_spec(endpoint@, repo_id@, revision@, filename@),
{
    let mut url = String::new();
    push_str(&mut url, endpoint);
    push_char(&mut url, '/');
    push_str(&mut url, repo_id);
    push_str(&mut url, "/resolve/");
    push_str(&mut url, revision);
    push_char(&mut url, '/');
    push_str(&mut url, filename);
    url
}


/// `{endpoint}/api/models/{repo_id}/revision/{revision}`.
pub open spec fn api_url_spec(endpoint: Seq<char>, repo_id: Seq<char>, revision: Seq<char>) -> Seq<
    char,
> {
    endpoint + "/api/models/"@ + repo_id + "/revision/"@ + revision
}

/// The repository-listing URL of `repo_id` at `revision`.
pub fn api_url(endpoint: &str, repo_id: &str, revision: &str) -> (url: String)
    ensures
        url@ == api_url_spec(endpoint@, repo_id@, revision@),
{
    let mut url = String::new();
    push_str(&mut url, endpoint);
    push_str(&mut url, "/api/models/");
    push_str(&mut url, repo_id);
    push_str(&mut url, "/revision/");
    push_str(&mut url, revision);
    url
}

/// The `Range` header value that resumes a download after `resume_from`
/// bytes, if any bytes are already on disk.
pub fn range_header(resume_from: u64) -> (h: Option<String>)
    ensures
        resume_from == 0 ==> h is None,
        resume_from > 0 ==> (h matches Some(v) && v@ == "bytes="@ + decimal(resume_from as nat)
            + seq!['-']),
{
    if resume_from == 0 {
        return None;
    }
    let mut v = String::new();
    push_str(&mut v, "bytes=");
    push_decimal(&mut v, resume_from);
    push_char(&mut v, '-');
    Some(v)
}

/// A response status the download accepts: any 2xx success, or 416 (the
/// partial file on disk is already complete).
pub open spec fn status_accepted(status: u16) -> bool {
    (200 <= status && status <= 299) || status == 416
}

/// Decides whether a download response status is usable, returning the
/// error the download reports otherwise.
pub fn check_download_status(url: &str, status: u16) -> (r: Result<(), HubError>)
    ensures
        r is Ok <==> status_accepted(status),
        r matches Err(e) ==> e matches HubError::Status { url: u, status: st } && u@ == url@
            && st == status,
{
    if !(200 <= status && status <= 299) && status != 416 {
        return Err(HubError::Status { url: url.to_owned(), status });
    }
    Ok(())
}

/// Decides whether a listing response status is a success.
pub fn check_listing_status(url: &str, status: u16) -> (r: Result<(), HubError>)
    ensures
        r is Ok <==> (200 <= status && status <= 299),
        r matches Err(e) ==> e matches HubError::Status { url: u, status: st } && u@ == url@
            && st == status,
{
    if !(200 <= status && status <= 299) {
        return Err(HubError::Status { url: url.to_owned(), status });
    }
    Ok(())
}

/// A 416 response means the file on disk is already complete.
pub fn already_complete(status: u16) -> (b: bool)
    ensures
        b == (status == 416),
{
    status == 416
}

/// The SHA256 digest a download is checked against: the `x-linked-etag` (or
/// `etag`) header with surrounding quotes removed, kept only when it is 64
/// hexadecimal characters.
pub open spec fn expected_digest(etag: Seq<char>) -> Option<Seq<char>> {
    let t = trim_char(etag, '"');
    if t.len() == 64 && forall|i: int| 0 <= i < t.len() ==> is_hex_char(#[trigger] t[i]) {
        Some(t)
    } else {
        None
    }
}

/// Extracts the expected SHA256 digest from an ETag header value.
pub fn expected_sha256(etag: Option<&str>) -> (r: Option<String>)
    ensures
        etag is None ==> r is None,
        etag matches Some(e) ==> match expected_digest(e@) {
            Some(d) => (r matches Some(s) && s@ == d),
            None => r is None,
        },
{
    match etag {
        None => None,
        Some(e) => {
            let cs = chars_of(e);
            let t = trim_char_vec(cs.as_slice(), '"');
            if t.len() != 64 {
                return None;
            }
            let mut i: usize = 0;
            while i < t.len()
                invariant
                    i <= t.len(),
                    t.len() == 64,
                    etag == Some(e),
                    t@ == trim_char(e@, '"'),
                    forall|k: int| 0 <= k < i ==> is_hex_char(#[trigger] t@[k]),
                decreases t.len() - i,
            {
                let c = t[i];
                if !(('0' <= c && c <= '9') || ('a' <= c && c <= 'f') || ('A' <= c && c <= 'F')) {
                    proof {
                        assert(!is_hex_char(t@[i as int]));
                    }
                    return None;
                }
                i = i + 1;
            }
            Some(string_from_chars(t.as_slice()))
        },
    }
}

/// The total size reported to progress callbacks: the announced content
/// length plus the bytes resumed from disk.
pub fn total_bytes(content_length: Option<u64>, resume_from: u64) -> (t: Option<u64>)
    requires
        content_length matches Some(n) ==> n + resume_from <= u64::MAX,
    ensures
        t == (match content_length {
            Some(n) => Some((n + resume_from) as u64),
            None => None,
        }),
{
    match content_length {
        Some(n) => Some(n + resume_from),
        None => None,
    }
}

/// The SHA256 digest of `data`, as computed by the `sha2` crate.
pub uninterp spec fn sha256(data: Seq<u8>) -> Seq<u8>;

/// Calls `sha2::Sha256::digest`: the 32-byte SHA256 digest of `data`.
#[verifier::external_body]
fn sha256_digest(data: &[u8]) -> (d: Vec<u8>)
    ensures
        d@ == sha256(data@),
        d@.len() == 32,
{
    <sha2::Sha256 as sha2::Digest>::digest(data).to_vec()
}

/// Lower-case hexadecimal SHA256 digest of `data`.
pub fn sha256_hex(data: &[u8]) -> (s: String)
    ensures
        s@ == hex_lower(sha256(data@)),
        s@.len() == 64,
{
    let d = sha256_digest(data);
    let s = hex_encode(d.as_slice());
    proof {
        lemma_hex_lower_len(d@);
    }
    s
}

proof fn lemma_hex_lower_len(b: Seq<u8>)
    ensures
        hex_lower(b).len() == 2 * b.len(),
    decreases b.len(),
{
    if b.len() > 0 {
        lemma_hex_lower_len(b.drop_last());
    }
}

/// Checks a downloaded file's digest against the expected one, if any.
pub fn verify_digest(path: &str, expected: Option<String>, actual: String) -> (r: Result<
    (),
    HubError,
>)
    ensures
        r is Ok <==> (expected matches Some(e) ==> e@ == actual@),
        r matches Err(err) ==> err matches HubError::HashMismatch { path: p, expected: e, actual: a }
            && p@ == path@ && Some(e) == expected && a == actual,
{
    match expected {
        None => Ok(()),
        Some(e) => {
            if e == actual {
                Ok(())
            } else {
                Err(HubError::HashMismatch { path: path.to_owned(), expected: e, actual })
            }
        },
    }
}

/// What a download does with the server's answer: the digest to check the
/// file against, the size to report, and whether the bytes on disk are
/// already the whole file.
pub struct ResponsePlan {
    /// The expected SHA256 digest, from the ETag headers.
    pub expected_sha256: Option<String>,
    /// The total size to report: content length plus resumed bytes.
    pub total_bytes: Option<u64>,
    /// The server answered 416: nothing more to download.
    pub already_complete: bool,
}

/// Decides how a download proceeds after the server answered `status` to a
/// request for `url` that resumed after `resume_from` bytes.
pub fn plan_response(
    url: &str,
    status: u16,
    etag: Option<&str>,
    content_length: Option<u64>,
    resume_from: u64,
) -> (r: Result<ResponsePlan, HubError>)
    requires
        content_length matches Some(n) ==> n + resume_from <= u64::MAX,
    ensures
        r is Ok <==> status_accepted(status),
        r matches Err(e) ==> e matches HubError::Status { url: u, status: st } && u@ == url@
            && st == status,
        r matches Ok(p) ==> p.already_complete == (status == 416) && p.total_bytes == (match content_length {
            Some(n) => Some((n + resume_from) as u64),
            None => None,
        }),
        r matches Ok(p) ==> (etag is None ==> p.expected_sha256 is None),
        r matches Ok(p) ==> (etag matches Some(e) ==> match expected_digest(e@) {
            Some(d) => (p.expected_sha256 matches Some(x) && x@ == d),
            None => p.expected_sha256 is None,
        }),
{
    check_download_status(url, status)?;
    Ok(ResponsePlan {
        expected_sha256: expected_sha256(etag),
        total_bytes: total_bytes(content_length, resume_from),
        already_complete: already_complete(status),
    })
}

/// A sanitized repo id holds no `/`, so it is a single path component.
pub proof fn lemma_sanitized_has_no_slash(s: Seq<char>)
    ensures
        !sanitized(s).contains('/'),
    decreases s.len(),
{
    if s.len() > 0 {
        lemma_sanitized_has_no_slash(s.drop_last());
        let a = sanitized(s.drop_last());
        let b = sanitized_piece(s.last());
        assert(!b.contains('/'));
        assert forall|i: int| 0 <= i < (a + b).len() implies (a + b)[i] != '/' by {
            if i < a.len() {
                assert((a + b)[i] == a[i]);
            } else {
                assert((a + b)[i] == b[i - a.len()]);
            }
        }
    }
}

/// Receives progress events of a download; every event is ignored unless
/// the implementation says otherwise.
pub trait ProgressReporter: Send + Sync {
    /// Called once before the first byte of `file` is written; `total_bytes`
    /// is `None` when the server reported no length.
    fn on_start(&self, file: &str, total_bytes: Option<u64>) {
    }

    /// Called after each chunk is written, with the bytes downloaded so far
    /// (resumed bytes included).
    fn on_progress(&self, file: &str, downloaded_bytes: u64, total_bytes: Option<u64>) {
    }

    /// Called once `file` has been downloaded and verified.
    fn on_complete(&self, file: &str) {
    }
}

/// A [`ProgressReporter`] that discards all events.
#[derive(Debug, Default, Clone, Copy)]
pub struct NoopProgressReporter;

impl ProgressReporter for NoopProgressReporter {
}

} // verus!
