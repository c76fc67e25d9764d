//! Building the HTTP response for a video request from the content and its `Range` header.

use vstd::prelude::*;
use vstd::string::StringExecFns;
use vstd::utf8::encode_utf8;
use crate::range::{
    ByteRange, RangeDecision, all_digits, bytes_prefix, decide, digits_value, field_end, first_field,
    has_bytes_prefix, is_digit, opt_bytes, parse_range, parse_u64_spec,
    second_field, strip_plus, visible_ascii,
};

verus! {

/// Why a video request could not be served.
#[derive(Debug)]
pub enum VideoStreamError {
    /// The identifier names no content.
    ContentNotFound(String),
    /// The content exists but could not be read.
    FileOpenError(String),
    /// The remote origin could not be fetched; holds the failure's description.
    UpstreamFetchError(String),
    /// The `Range` header is not a `bytes=` range.
    InvalidRangeHeader(String),
}

/// A response as status, headers and body; the transport writes it out.
pub struct VideoResponse {
    pub status: u16,
    /// The `Content-Type` header.
    pub content_type: Option<String>,
    /// The `Content-Length` header.
    pub content_length: Option<u64>,
    /// The `Content-Range` header's value.
    pub content_range: Option<Vec<u8>>,
    pub body: Vec<u8>,
}

/// The mathematical content of a `VideoResponse`.
pub struct ResponseView {
    pub status: u16,
    pub content_type: Option<Seq<char>>,
    pub content_length: Option<u64>,
    pub content_range: Option<Seq<u8>>,
    pub body: Seq<u8>,
}

pub open spec fn opt_string(s: Option<String>) -> Option<Seq<char>> {
    match s {
        Some(t) => Some(t@),
        None => None,
    }
}

pub open spec fn opt_vec(s: Option<Vec<u8>>) -> Option<Seq<u8>> {
    match s {
        Some(t) => Some(t@),
        None => None,
    }
}

impl View for VideoResponse {
    type V = ResponseView;

    open spec fn view(&self) -> ResponseView {
        ResponseView {
            status: self.status,
            content_type: opt_string(self.content_type),
            content_length: self.content_length,
            content_range: opt_vec(self.content_range),
            body: self.body@,
        }
    }
}

pub open spec fn status_of(e: VideoStreamError) -> u16 {
    match e {
        VideoStreamError::ContentNotFound(_) => 404,
        VideoStreamError::FileOpenError(_) => 500,
        VideoStreamError::UpstreamFetchError(_) => 500,
        VideoStreamError::InvalidRangeHeader(_) => 400,
    }
}

/// The text that an error's response carries as its body.
pub open spec fn error_text(e: VideoStreamError) -> Seq<char> {
    match e {
        VideoStreamError::ContentNotFound(id) => "Video not found: "@ + id@,
        VideoStreamError::FileOpenError(_) => "Error opening the video file"@,
        VideoStreamError::UpstreamFetchError(msg) => msg@,
        VideoStreamError::InvalidRangeHeader(_) => "Invalid Range header"@,
    }
}

pub open spec fn error_view(e: VideoStreamError) -> ResponseView {
    ResponseView {
        status: status_of(e),
        content_type: None,
        content_length: None,
        content_range: None,
        body: encode_utf8(error_text(e)),
    }
}

/// Decimal digits of `n`, most significant first, without leading zeros.
pub open spec fn decimal(n: nat) -> Seq<u8>
    decreases n,
{
    if n < 10 {
        seq![(48 + n) as u8]
    } else {
        decimal(n / 10).push((48 + n % 10) as u8)
    }
}

/// `bytes <start>-<end>/<total>`
pub open spec fn span_text(b: ByteRange) -> Seq<u8> {
    seq![98u8, 121u8, 116u8, 101u8, 115u8, 32u8] + decimal(b.start as nat) + seq![45u8] + decimal(
        b.end as nat,
    ) + seq![47u8] + decimal(b.total as nat)
}

/// `bytes */<total>`
pub open spec fn unsatisfied_text(total: u64) -> Seq<u8> {
    seq![98u8, 121u8, 116u8, 101u8, 115u8, 32u8, 42u8, 47u8] + decimal(total as nat)
}

/// The response to a request for `content` with an optional `Range` header.
pub open spec fn serve_spec(content: Seq<u8>, media_type: Seq<char>, header: Option<Seq<u8>>) -> ResponseView {
    let total = content.len() as u64;
    match decide(header, total) {
        RangeDecision::Full => ResponseView {
            status: 200,
            content_type: Some(media_type),
            content_length: Some(total),
            content_range: None,
            body: content,
        },
        RangeDecision::Satisfiable(b) => ResponseView {
            status: 206,
            content_type: Some(media_type),
            content_length: Some(b.spec_len() as u64),
            content_range: Some(span_text(b)),
            body: content.subrange(b.start as int, b.end + 1),
        },
        RangeDecision::Unsatisfiable => ResponseView {
            status: 416,
            content_type: None,
            content_length: None,
            content_range: Some(unsatisfied_text(total)),
            body: Seq::empty(),
        },
        RangeDecision::Malformed => ResponseView {
            status: 400,
            content_type: None,
            content_length: None,
            content_range: None,
            body: encode_utf8("Invalid Range header"@),
        },
    }
}

/// Appends the decimal digits of `n` to `out`.
fn push_decimal(out: &mut Vec<u8>, n: u64)
    ensures
        final(out)@ == old(out)@ + decimal(n as nat),
    decreases n,
{
    if n >= 10 {
        push_decimal(out, n / 10);
    }
    out.push(48u8 + (n % 10) as u8);
    proof {
        if n >= 10 {
            assert(final(out)@ =~= old(out)@ + decimal(n as nat));
        } else {
            assert(final(out)@ =~= old(out)@ + decimal(n as nat));
        }
    }
}

/// A copy of `s` as a vector.
fn copy_bytes(s: &[u8]) -> (r: Vec<u8>)
    ensures
        r@ == s@,
{
    let mut r: Vec<u8> = Vec::new();
    let mut i: usize = 0;
    while i < s.len()
        invariant
            i <= s@.len(),
            r@ == s@.subrange(0, i as int),
        decreases s@.len() - i,
    {
        r.push(s[i]);
        i = i + 1;
        assert(r@ =~= s@.subrange(0, i as int));
    }
    assert(s@.subrange(0, i as int) =~= s@);
    r
}

/// `content[start..=end]` as a vector.
fn copy_span(content: &Vec<u8>, start: usize, end: usize) -> (r: Vec<u8>)
    requires
        start <= end < content@.len(),
    ensures
        r@ == content@.subrange(start as int, end + 1),
{
    let mut r: Vec<u8> = Vec::new();
    let n = content.len();
    assert(end < n);
    let stop = end + 1;
    let mut i: usize = start;
    while i < stop
        invariant
            start <= i <= stop,
            stop == end + 1,
            stop <= content@.len(),
            r@ == content@.subrange(start as int, i as int),
        decreases stop - i,
    {
        r.push(content[i]);
        i = i + 1;
        assert(r@ =~= content@.subrange(start as int, i as int));
    }
    r
}

/// The response body of an error, as UTF-8 bytes.
fn utf8_bytes(s: &String) -> (r: Vec<u8>)
    ensures
        r@ == encode_utf8(s@),
{
    copy_bytes(s.as_str().as_bytes())
}

impl VideoStreamError {
    /// The HTTP status that the error is answered with.
    pub fn status_code(&self) -> (r: u16)
        ensures
            r == status_of(*self),
    {
        match self {
            VideoStreamError::ContentNotFound(_) => 404,
            VideoStreamError::FileOpenError(_) => 500,
            VideoStreamError::UpstreamFetchError(_) => 500,
            VideoStreamError::InvalidRangeHeader(_) => 400,
        }
    }

    /// The text of the error's response body.
    pub fn message(&self) -> (r: String)
        ensures
            r@ == error_text(*self),
    {
        match self {
            VideoStreamError::ContentNotFound(id) => {
                let mut t = String::from_str("Video not found: ");
                t.append(id.as_str());
                t
            },
            VideoStreamError::FileOpenError(_) => String::from_str("Error opening the video file"),
            VideoStreamError::UpstreamFetchError(msg) => msg.clone(),
            VideoStreamError::InvalidRangeHeader(_) => String::from_str("Invalid Range header"),
        }
    }

    /// The response that reports the error.
    pub fn error_response(&self) -> (r: VideoResponse)
        ensures
            r@ == error_view(*self),
    {
        let text = self.message();
        VideoResponse {
            status: self.status_code(),
            content_type: None,
            content_length: None,
            content_range: None,
            body: utf8_bytes(&text),
        }
    }
}

/// Serves `content` of type `media_type`, honouring an optional `Range` header.
pub fn serve_content(content: Vec<u8>, media_type: &str, range_header: Option<&[u8]>) -> (r: VideoResponse)
    ensures
        r@ == serve_spec(content@, media_type@, opt_bytes(range_header)),
{
    let total = content.len() as u64;
    match parse_range(range_header, total) {
        RangeDecision::Full => VideoResponse {
            status: 200,
            content_type: Some(String::from_str(media_type)),
            content_length: Some(total),
            content_range: None,
            body: content,
        },
        RangeDecision::Satisfiable(b) => {
            let body = copy_span(&content, b.start as usize, b.end as usize);
            let mut range_text: Vec<u8> = Vec::new();
            range_text.push(98u8);
            range_text.push(121u8);
            range_text.push(116u8);
            range_text.push(101u8);
            range_text.push(115u8);
            range_text.push(32u8);
            push_decimal(&mut range_text, b.start);
            range_text.push(45u8);
            push_decimal(&mut range_text, b.end);
            range_text.push(47u8);
            push_decimal(&mut range_text, b.total);
            assert(range_text@ =~= span_text(b));
            VideoResponse {
                status: 206,
                content_type: Some(String::from_str(media_type)),
                content_length: Some(b.len()),
                content_range: Some(range_text),
                body,
            }
        },
        RangeDecision::Unsatisfiable => {
            let mut range_text: Vec<u8> = Vec::new();
            range_text.push(98u8);
            range_text.push(121u8);
            range_text.push(116u8);
            range_text.push(101u8);
            range_text.push(115u8);
            range_text.push(32u8);
            range_text.push(42u8);
            range_text.push(47u8);
            push_decimal(&mut range_text, total);
            assert(range_text@ =~= unsatisfied_text(total));
            VideoResponse {
                status: 416,
                content_type: None,
                content_length: None,
                content_range: Some(range_text),
                body: Vec::new(),
            }
        },
        RangeDecision::Malformed => {
            let e = VideoStreamError::InvalidRangeHeader(String::from_str("Invalid Range header"));
            e.error_response()
        },
    }
}

/// Answers a video request from the outcome of loading its content.
pub fn stream_video(
    source: Result<Vec<u8>, VideoStreamError>,
    media_type: &str,
    range_header: Option<&[u8]>,
) -> (r: VideoResponse)
    ensures
        match source {
            Ok(content) => r@ == serve_spec(content@, media_type@, opt_bytes(range_header)),
            Err(e) => r@ == error_view(e),
        },
{
    match source {
        Ok(content) => serve_content(content, media_type, range_header),
        Err(e) => e.error_response(),
    }
}

/// A `Range` header `bytes=<start>-<end_text>`.
pub open spec fn range_header_text(start: u64, end_text: Seq<u8>) -> Seq<u8> {
    bytes_prefix() + decimal(start as nat) + seq![45u8] + end_text
}

proof fn lemma_decimal_digits(n: nat)
    ensures
        decimal(n).len() > 0,
        all_digits(decimal(n)),
        digits_value(decimal(n)) == n,
    decreases n,
{
    if n >= 10 {
        lemma_decimal_digits(n / 10);
        let d = decimal(n);
        assert(d.drop_last() =~= decimal(n / 10));
        assert(d.last() == (48 + n % 10) as u8);
        assert((d.last() - 48) as nat == n % 10);
        assert((n / 10) * 10 + n % 10 == n) by (nonlinear_arith);
        assert(digits_value(d) == digits_value(d.drop_last()) * 10 + (d.last() - 48) as nat);
        assert forall|i: int| 0 <= i < d.len() implies is_digit(#[trigger] d[i]) by {
            if i < d.len() - 1 {
                assert(d[i] == decimal(n / 10)[i]);
            }
        }
    } else {
        assert(decimal(n).drop_last() =~= Seq::<u8>::empty());
        assert(digits_value(Seq::<u8>::empty()) == 0);
        assert(digits_value(decimal(n)) == digits_value(decimal(n).drop_last()) * 10 + (decimal(n).last() - 48) as nat);
    }
}

proof fn lemma_parse_decimal(n: u64)
    ensures
        parse_u64_spec(decimal(n as nat)) == Some(n),
{
    lemma_decimal_digits(n as nat);
    let d = decimal(n as nat);
    assert(is_digit(d[0]));
    assert(strip_plus(d) == d);
}

proof fn lemma_field_end_at(s: Seq<u8>, from: int, k: int)
    requires
        0 <= from <= k <= s.len(),
        k < s.len() ==> s[k] == 45u8,
        forall|j: int| from <= j < k ==> s[j] != 45u8,
    ensures
        field_end(s, from) == k,
    decreases k - from,
{
    if from < k {
        lemma_field_end_at(s, from + 1, k);
    }
}

/// Facts on the start field of `range_header_text(start, end_text)`.
proof fn lemma_header_fields(start: u64, end_text: Seq<u8>)
    requires
        visible_ascii(end_text),
    ensures
        ({
            let h = range_header_text(start, end_text);
            let rest = h.subrange(6, h.len() as int);
            let k = decimal(start as nat).len() as int;
            &&& visible_ascii(h)
            &&& has_bytes_prefix(h)
            &&& rest =~= decimal(start as nat) + seq![45u8] + end_text
            &&& field_end(rest, 0) == k
            &&& first_field(rest) =~= decimal(start as nat)
            &&& parse_u64_spec(first_field(rest)) == Some(start)
            &&& second_field(rest) == Some(rest.subrange(k + 1, field_end(rest, k + 1)))
        }),
{
    let d = decimal(start as nat);
    let h = range_header_text(start, end_text);
    let rest = h.subrange(6, h.len() as int);
    lemma_decimal_digits(start as nat);
    lemma_parse_decimal(start);
    assert(rest =~= d + seq![45u8] + end_text);
    assert(h.subrange(0, 6) =~= bytes_prefix());
    assert forall|i: int| 0 <= i < h.len() implies (#[trigger] h[i] == 9u8 || (32 <= h[i] && h[i]
        < 127)) by {
        if i < 6 {
        } else if i < 6 + d.len() {
            assert(h[i] == d[i - 6]);
            assert(is_digit(d[i - 6]));
        } else if i == 6 + d.len() {
        } else {
            assert(h[i] == end_text[i - 7 - d.len()]);
        }
    }
    assert forall|j: int| 0 <= j < d.len() implies rest[j] != 45u8 by {
        assert(rest[j] == d[j]);
        assert(is_digit(d[j]));
    }
    lemma_field_end_at(rest, 0, d.len() as int);
    assert(first_field(rest) =~= d);
}

/// A range that starts inside the content is answered with 206, its end clamped to the last
/// byte, and a body and `Content-Length` of `end - start + 1` bytes.
pub proof fn lemma_span_clamped(content: Seq<u8>, media_type: Seq<char>, start: u64, end: u64)
    requires
        content.len() <= u64::MAX,
        start < content.len(),
        start <= end,
    ensures
        ({
            let total = content.len() as u64;
            let last = (total - 1) as u64;
            let clamped = if end < last { end } else { last };
            let h = range_header_text(start, decimal(end as nat));
            let r = serve_spec(content, media_type, Some(h));
            &&& decide(Some(h), total) == RangeDecision::Satisfiable(
                ByteRange { start, end: clamped, total },
            )
            &&& r.status == 206
            &&& r.content_length == Some((clamped - start + 1) as u64)
            &&& r.body.len() == clamped - start + 1
            &&& r.body == content.subrange(start as int, clamped + 1)
            &&& r.content_range == Some(span_text(ByteRange { start, end: clamped, total }))
        }),
{
    let e = decimal(end as nat);
    lemma_decimal_digits(end as nat);
    assert forall|i: int| 0 <= i < e.len() implies (#[trigger] e[i] == 9u8 || (32 <= e[i] && e[i]
        < 127)) by {
        assert(is_digit(e[i]));
    }
    lemma_header_fields(start, e);
    let h = range_header_text(start, e);
    let rest = h.subrange(6, h.len() as int);
    let k = decimal(start as nat).len() as int;
    assert forall|j: int| k + 1 <= j < rest.len() implies rest[j] != 45u8 by {
        assert(rest[j] == e[j - k - 1]);
        assert(is_digit(e[j - k - 1]));
    }
    lemma_field_end_at(rest, k + 1, rest.len() as int);
    assert(rest.subrange(k + 1, rest.len() as int) =~= e);
    lemma_parse_decimal(end);
}

/// A range that starts at or past the end of the content is answered with 416 and
/// `Content-Range: bytes */<total>`, whatever follows the `-`.
pub proof fn lemma_start_past_end(content: Seq<u8>, media_type: Seq<char>, start: u64, end_text: Seq<u8>)
    requires
        content.len() <= u64::MAX,
        start >= content.len(),
        visible_ascii(end_text),
    ensures
        serve_spec(content, media_type, Some(range_header_text(start, end_text))) == (ResponseView {
            status: 416,
            content_type: None,
            content_length: None,
            content_range: Some(unsatisfied_text(content.len() as u64)),
            body: Seq::empty(),
        }),
{
    lemma_header_fields(start, end_text);
}

/// Without a `Range` header the whole content is answered with 200.
pub proof fn lemma_no_header_full(content: Seq<u8>, media_type: Seq<char>)
    requires
        content.len() <= u64::MAX,
    ensures
        serve_spec(content, media_type, None) == (ResponseView {
            status: 200,
            content_type: Some(media_type),
            content_length: Some(content.len() as u64),
            content_range: None,
            body: content,
        }),
{
}

/// `bytes=0-` brings the same bytes as a request without a `Range` header.
pub proof fn lemma_open_range_whole(content: Seq<u8>, media_type: Seq<char>)
    requires
        content.len() <= u64::MAX,
    ensures
        serve_spec(content, media_type, Some(range_header_text(0, Seq::empty()))).body
            == serve_spec(content, media_type, None).body,
{
    lemma_header_fields(0, Seq::empty());
    let h = range_header_text(0, Seq::empty());
    let rest = h.subrange(6, h.len() as int);
    let k = decimal(0).len() as int;
    lemma_field_end_at(rest, k + 1, rest.len() as int);
    if content.len() > 0 {
        assert(content.subrange(0, content.len() as int) =~= content);
    } else {
        assert(content =~= Seq::<u8>::empty());
    }
}

} // verus!
