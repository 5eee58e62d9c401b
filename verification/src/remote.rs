//! The remote store protocol: what each request carries, and what each
//! response means.
//!
//! The shell performs the HTTP calls and hands back plain values — the
//! status code, the rate-limit delay, the body text.  Everything decided
//! here is verified: how a cluster's stored size splits into reservation
//! sizes, the exact request bodies, and the retry discipline — a 429
//! repeats the same request after the server's delay and never surfaces,
//! 401/403/404 fail immediately with their own kinds, any other
//! non-success status is an opaque fatal error.

use crate::errors::{DownloadError, UploadError};
use crate::geometry::{ceil_div, lemma_ceil_div, min2, SLICE_SIZE};
use crate::text::{dec_of, string_push_str, u64_to_string};
use vstd::prelude::*;

verus! {

/// One reserved upload slot: where to send the bytes and the name the
/// store filed them under.
pub struct UploadDetailsInner {
    pub upload_url: String,
    pub upload_filename: String,
}

/// The reservation response: one slot per requested slice, in request
/// order.
pub struct UploadDetails {
    pub attachments: Vec<UploadDetailsInner>,
}

/// One attachment of a fetched message.
pub struct Attachment {
    pub url: String,
}

/// One fetched message: its handle and its attachments.
pub struct MessageFull {
    pub attachments: Vec<Attachment>,
    pub id: String,
}

/// Draining a collection into the values the pipeline needs.
pub trait Take {
    fn take(&mut self) -> Vec<String>;
}

impl Take for Vec<Attachment> {
    fn take(&mut self) -> Vec<String> {
        take_urls(self)
    }
}

/// Drains the attachment urls, in order, leaving the vector empty.
pub fn take_urls(v: &mut Vec<Attachment>) -> (r: Vec<String>)
    ensures
        r@.len() == old(v)@.len(),
        forall|i: int| 0 <= i < r@.len() ==> r@[i]@ == #[trigger] old(v)@[i].url@,
        final(v)@.len() == 0,
{
    let mut r: Vec<String> = Vec::new();
    let mut i: usize = 0;
    let n = v.len();
    while i < n
        invariant
            0 <= i <= n,
            n == v@.len(),
            v@ == old(v)@,
            r@.len() == i,
            forall|j: int| 0 <= j < i ==> r@[j]@ == #[trigger] old(v)@[j].url@,
        decreases n - i,
    {
        r.push(v[i].url.clone());
        i = i + 1;
    }
    v.clear();
    r
}

/// What one response to an upload-side request (reserve, finalize) means.
pub enum UploadStep {
    /// 200: the payload is the result.
    Done,
    /// 429: repeat the same request after this many milliseconds.
    RetryAfter(u64),
    /// Anything else: the job fails with this error.
    Fail(UploadError),
}

/// What one response to a download-side request (fetch-near, object get)
/// means.
pub enum DownloadStep {
    /// 200: the payload is the result.
    Done,
    /// 429: repeat the same request after this many milliseconds.
    RetryAfter(u64),
    /// Anything else: the job fails with this error.
    Fail(DownloadError),
}

/// The retry discipline of upload-side requests.  A rate limit is retried
/// with the server's delay and surfaces no error; credential and existence
/// failures have their own kinds; everything else is opaque and fatal.
pub fn upload_request_step(status: u16, retry_after_ms: u64, status_text: String) -> (r:
    UploadStep)
    ensures
        status == 200 ==> r == UploadStep::Done,
        status == 429 ==> r == UploadStep::RetryAfter(retry_after_ms),
        status == 401 ==> r == UploadStep::Fail(UploadError::Unauthorized),
        status == 403 ==> r == UploadStep::Fail(UploadError::Forbidden),
        status == 404 ==> r == UploadStep::Fail(UploadError::NotFound),
        !(status == 200 || status == 429 || status == 401 || status == 403 || status
            == 404) ==> r == UploadStep::Fail(UploadError::Unknown(status, status_text)),
{
    if status == 200 {
        UploadStep::Done
    } else if status == 429 {
        UploadStep::RetryAfter(retry_after_ms)
    } else if status == 401 {
        UploadStep::Fail(UploadError::Unauthorized)
    } else if status == 403 {
        UploadStep::Fail(UploadError::Forbidden)
    } else if status == 404 {
        UploadStep::Fail(UploadError::NotFound)
    } else {
        UploadStep::Fail(UploadError::Unknown(status, status_text))
    }
}

/// The retry discipline of download-side requests; same shape as the
/// upload side, with download error kinds.
pub fn download_request_step(status: u16, retry_after_ms: u64, status_text: String) -> (r:
    DownloadStep)
    ensures
        status == 200 ==> r == DownloadStep::Done,
        status == 429 ==> r == DownloadStep::RetryAfter(retry_after_ms),
        status == 401 ==> r == DownloadStep::Fail(DownloadError::Unauthorized),
        status == 403 ==> r == DownloadStep::Fail(DownloadError::Forbidden),
        status == 404 ==> r == DownloadStep::Fail(DownloadError::NotFound),
        !(status == 200 || status == 429 || status == 401 || status == 403 || status
            == 404) ==> r == DownloadStep::Fail(
            DownloadError::Unknown(status, status_text),
        ),
{
    if status == 200 {
        DownloadStep::Done
    } else if status == 429 {
        DownloadStep::RetryAfter(retry_after_ms)
    } else if status == 401 {
        DownloadStep::Fail(DownloadError::Unauthorized)
    } else if status == 403 {
        DownloadStep::Fail(DownloadError::Forbidden)
    } else if status == 404 {
        DownloadStep::Fail(DownloadError::NotFound)
    } else {
        DownloadStep::Fail(DownloadError::Unknown(status, status_text))
    }
}

/// Whether a slice upload's response status means success (any 2xx).
pub fn put_succeeded(status: u16) -> (r: bool)
    ensures
        r == (200 <= status < 300),
{
    200 <= status && status < 300
}

/// The sum of declared sizes.
pub open spec fn sum_sizes(s: Seq<u64>) -> int
    decreases s.len(),
{
    if s.len() == 0 {
        0
    } else {
        sum_sizes(s.drop_last()) + s.last()
    }
}

/// Splits a cluster's stored size into the per-slice sizes declared when
/// reserving upload slots: each slice takes a full `SLICE_SIZE` except the
/// last, which takes the rest.  The declared sizes sum to the cluster
/// size.
pub fn reservation_sizes(size: u64) -> (r: Vec<u64>)
    requires
        0 < size <= 0x9_0000_0000_0000,
    ensures
        r@.len() == ceil_div(size as int, SLICE_SIZE as int),
        forall|i: int|
            0 <= i < r@.len() ==> #[trigger] r@[i] as int == min2(
                SLICE_SIZE as int,
                size - i * (SLICE_SIZE as int),
            ),
        sum_sizes(r@) == size,
{
    proof {
        lemma_ceil_div(size as int, SLICE_SIZE as int);
    }
    let count = (size + SLICE_SIZE - 1) / SLICE_SIZE;
    let ghost s = SLICE_SIZE as int;
    let mut r: Vec<u64> = Vec::new();
    let mut i: u64 = 0;
    while i < count
        invariant
            0 <= i <= count,
            count as int == ceil_div(size as int, s),
            s == SLICE_SIZE as int,
            0 < size <= 0x9_0000_0000_0000,
            count * s >= size,
            (count - 1) * s < size,
            r@.len() == i,
            forall|j: int|
                0 <= j < i ==> #[trigger] r@[j] as int == min2(s, size - j * s),
            sum_sizes(r@) == if i < count {
                i as int * s
            } else {
                size as int
            },
        decreases count - i,
    {
        proof {
            assert(i as int * s >= 0) by (nonlinear_arith)
                requires
                    i as int >= 0,
                    s > 0,
            ;
            assert(i as int * s <= (count - 1) * s) by (nonlinear_arith)
                requires
                    i as int <= count - 1,
                    s > 0,
            ;
            assert((i as int + 1) * s == i as int * s + s) by (nonlinear_arith);
        }
        let used = i * SLICE_SIZE;
        let piece = if SLICE_SIZE <= size - used {
            SLICE_SIZE
        } else {
            size - used
        };
        let ghost r_pre = r@;
        r.push(piece);
        proof {
            assert(r@.drop_last() =~= r_pre);
            if i + 1 < count {
                assert(piece as int == s) by {
                    assert((i as int + 1) * s <= (count - 1) * s) by (nonlinear_arith)
                        requires
                            i as int + 1 <= count - 1,
                            s > 0,
                    ;
                }
            } else {
                assert(piece as int == size - i as int * s);
            }
        }
        i = i + 1;
    }
    r
}

/// One reservation entry of the reserve request body.
pub open spec fn preupload_item(size: int) -> Seq<char> {
    "{\"file_size\":"@ + dec_of(size) + ",\"filename\":\"-\",\"id\":0,\"is_clip\":false}"@
}

/// The reservation entries, comma-separated, in request order.
pub open spec fn preupload_items(sizes: Seq<u64>) -> Seq<char>
    decreases sizes.len(),
{
    if sizes.len() == 0 {
        Seq::empty()
    } else if sizes.len() == 1 {
        preupload_item(sizes.last() as int)
    } else {
        preupload_items(sizes.drop_last()) + ","@ + preupload_item(sizes.last() as int)
    }
}

/// The reserve request body for the given slice sizes.
pub open spec fn preupload_body_spec(sizes: Seq<u64>) -> Seq<char> {
    "{\"files\":["@ + preupload_items(sizes) + "]}"@
}

/// Renders the reserve request body.
pub fn preupload_body(sizes: &Vec<u64>) -> (r: String)
    ensures
        r@ == preupload_body_spec(sizes@),
{
    let mut body = String::new();
    string_push_str(&mut body, "{\"files\":[");
    let mut i: usize = 0;
    while i < sizes.len()
        invariant
            0 <= i <= sizes@.len(),
            body@ == "{\"files\":["@ + preupload_items(sizes@.take(i as int)),
        decreases sizes@.len() - i,
    {
        if i > 0 {
            string_push_str(&mut body, ",");
        }
        string_push_str(&mut body, "{\"file_size\":");
        let n = u64_to_string(sizes[i]);
        string_push_str(&mut body, n.as_str());
        string_push_str(&mut body, ",\"filename\":\"-\",\"id\":0,\"is_clip\":false}");
        proof {
            assert(sizes@.take(i + 1).drop_last() =~= sizes@.take(i as int));
            assert(sizes@.take(i + 1).last() == sizes@[i as int]);
        }
        i = i + 1;
    }
    string_push_str(&mut body, "]}");
    proof {
        assert(sizes@.take(sizes@.len() as int) =~= sizes@);
    }
    body
}

/// One attachment entry of the finalize request body.
pub open spec fn finalize_item(name: Seq<char>) -> Seq<char> {
    "{\"filename\":\"-\",\"uploaded_filename\":\""@ + name + "\",\"id\":\"0\"}"@
}

/// The attachment entries, comma-separated, in slice order.
pub open spec fn finalize_items(names: Seq<Seq<char>>) -> Seq<char>
    decreases names.len(),
{
    if names.len() == 0 {
        Seq::empty()
    } else if names.len() == 1 {
        finalize_item(names.last())
    } else {
        finalize_items(names.drop_last()) + ","@ + finalize_item(names.last())
    }
}

/// The finalize request body: the reserved filenames plus the destination.
pub open spec fn finalize_body_spec(names: Seq<Seq<char>>, channel: Seq<char>) -> Seq<
    char,
> {
    "{\"attachments\":["@ + finalize_items(names) + "],\"channel_id\":\""@ + channel
        + "\",\"content\":\"\",\"type\":0,\"sticker_ids\":[]}"@
}

/// Renders the finalize request body for the reserved slots.
pub fn finalize_body(details: &Vec<UploadDetailsInner>, channel: &str) -> (r: String)
    ensures
        r@ == finalize_body_spec(
            details@.map_values(|d: UploadDetailsInner| d.upload_filename@),
            channel@,
        ),
{
    let ghost names = details@.map_values(|d: UploadDetailsInner| d.upload_filename@);
    let mut body = String::new();
    string_push_str(&mut body, "{\"attachments\":[");
    let mut i: usize = 0;
    while i < details.len()
        invariant
            0 <= i <= details@.len(),
            names == details@.map_values(|d: UploadDetailsInner| d.upload_filename@),
            body@ == "{\"attachments\":["@ + finalize_items(names.take(i as int)),
        decreases details@.len() - i,
    {
        if i > 0 {
            string_push_str(&mut body, ",");
        }
        string_push_str(&mut body, "{\"filename\":\"-\",\"uploaded_filename\":\"");
        string_push_str(&mut body, details[i].upload_filename.as_str());
        string_push_str(&mut body, "\",\"id\":\"0\"}");
        proof {
            assert(names.take(i + 1).drop_last() =~= names.take(i as int));
            assert(names.take(i + 1).last() == names[i as int]);
        }
        i = i + 1;
    }
    string_push_str(&mut body, "],\"channel_id\":\"");
    string_push_str(&mut body, channel);
    string_push_str(&mut body, "\",\"content\":\"\",\"type\":0,\"sticker_ids\":[]}");
    proof {
        assert(names.take(names.len() as int) =~= names);
    }
    body
}

/// How many messages to fetch around a handle: twice the unresolved count,
/// capped at the store's page limit.
pub fn fetch_window(count: usize) -> (r: usize)
    requires
        count <= 0x7fff_ffff,
    ensures
        r as int == min2(2 * count, 100),
{
    let doubled = 2 * count;
    if doubled <= 100 {
        doubled
    } else {
        100
    }
}

/// The platform epoch the nonce clock counts from, in milliseconds.
pub const NONCE_EPOCH: u64 = 1420070400000;

/// The nonce value for a given wall-clock millisecond reading.
pub open spec fn nonce_value(now: u64) -> u64 {
    if now >= NONCE_EPOCH {
        ((now - NONCE_EPOCH) as u64) << 22u64
    } else {
        0
    }
}

/// Renders the message nonce for a given millisecond reading: milliseconds
/// since the platform epoch, shifted into the upper bits, in decimal.
pub fn nonce_from_millis(now: u64) -> (r: String)
    ensures
        r@ == dec_of(nonce_value(now) as int),
{
    let v: u64 = if now >= NONCE_EPOCH {
        (now - NONCE_EPOCH) << 22u64
    } else {
        0
    };
    u64_to_string(v)
}

/// Relies on `std::time::SystemTime::now`: the wall clock in milliseconds
/// since the Unix epoch.  Nothing can be promised of a clock reading.
#[verifier::external_body]
fn now_millis() -> (r: u64) {
    std::time::SystemTime::now()
        .duration_since(std::time::UNIX_EPOCH)
        .map(|d| d.as_millis() as u64)
        .unwrap_or(0)
}

/// A fresh message nonce from the wall clock.
pub fn get_nonce() -> (r: String)
    ensures
        exists|t: u64| r@ == dec_of(nonce_value(t) as int),
{
    let now = now_millis();
    let r = nonce_from_millis(now);
    proof {
        assert(r@ == dec_of(nonce_value(now) as int));
    }
    r
}

} // verus!
