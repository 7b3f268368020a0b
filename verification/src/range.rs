//! Byte ranges: which part of a file answers a `Range` header, and with
//! which status and headers.

use vstd::prelude::*;
use headers::Header;
use crate::text::{decimal, decimal_text, optional_str, optional_text};

verus! {

/// The size of the buffer through which a body is streamed, whatever the
/// length of the range: 128 KiB.
pub const CHUNK_SIZE: usize = 131072;

/// One end of a requested range.
#[derive(Debug, Clone, Copy, PartialEq, Eq, Structural)]
pub enum RangeBound {
    Included(u64),
    Excluded(u64),
    Unbounded,
}

/// The ranges that a `Range` header asks for of a file of `len` bytes, as
/// the decoder yields them, in the header's order; `None` for a header
/// that is no byte-range header.
pub uninterp spec fn header_ranges(header: Seq<char>, len: u64) -> Option<
    Seq<(RangeBound, RangeBound)>,
>;

/// The view of decoded ranges.
pub open spec fn ranges_view(r: Option<Vec<(RangeBound, RangeBound)>>) -> Option<
    Seq<(RangeBound, RangeBound)>,
> {
    match r {
        Some(v) => Some(v@),
        None => None,
    }
}

/// The header that asks for the bytes `first` to `last`.
pub open spec fn closed_range_header(first: u64, last: u64) -> Seq<char> {
    "bytes="@ + decimal(first as nat) + "-"@ + decimal(last as nat)
}

/// The header that asks for all bytes from `first` on.
pub open spec fn open_range_header(first: u64) -> Seq<char> {
    "bytes="@ + decimal(first as nat) + "-"@
}

/// The header that asks for the last `count` bytes.
pub open spec fn suffix_range_header(count: u64) -> Seq<char> {
    "bytes=-"@ + decimal(count as nat)
}

/// What the three plain forms of a header are decoded as: one range with
/// both bounds as they stand; one with a first byte and no upper bound;
/// and a suffix as the one range from `len - count` on, or as no range if
/// the file is shorter than the suffix.
pub open spec fn plain_forms_hold(
    header: Seq<char>,
    len: u64,
    r: Option<Seq<(RangeBound, RangeBound)>>,
) -> bool {
    &&& forall|first: u64, last: u64|
        header == #[trigger] closed_range_header(first, last) ==> r == Some(
            seq![(RangeBound::Included(first), RangeBound::Included(last))],
        )
    &&& forall|first: u64|
        header == #[trigger] open_range_header(first) ==> r == Some(
            seq![(RangeBound::Included(first), RangeBound::Unbounded)],
        )
    &&& forall|count: u64|
        header == #[trigger] suffix_range_header(count) ==> r == if count <= len {
            Some(seq![(RangeBound::Included((len - count) as u64), RangeBound::Unbounded)])
        } else {
            Some(Seq::<(RangeBound, RangeBound)>::empty())
        }
}

/// `Range::decode` and `Range::satisfiable_ranges` of the `headers` crate:
/// the header is decoded as a client sent it, and every range that
/// `satisfiable_ranges` yields for `len` is handed out, in its order, with
/// its two bounds as they came. A value that does not decode gives `None`.
///
/// The contract names the result, and says what the crate's parser makes
/// of a header that holds one range in plain decimal: it splits the range
/// at its `-` and reads each side as a number, and it turns a suffix of
/// `count` bytes into the range from `len - count` on, or drops it if
/// `count` is more than `len`.
#[verifier::external_body]
fn decode_ranges(header: &str, len: u64) -> (r: Option<Vec<(RangeBound, RangeBound)>>)
    ensures
        ranges_view(r) == header_ranges(header@, len),
        plain_forms_hold(header@, len, ranges_view(r)),
{
    let Ok(value) = headers::HeaderValue::from_str(header) else { return None };
    let mut values = std::iter::once(&value);
    let Ok(range) = headers::Range::decode(&mut values) else { return None };
    let plain = |b: std::ops::Bound<u64>| match b {
        std::ops::Bound::Included(v) => RangeBound::Included(v),
        std::ops::Bound::Excluded(v) => RangeBound::Excluded(v),
        std::ops::Bound::Unbounded => RangeBound::Unbounded,
    };
    Some(range.satisfiable_ranges(len).map(|(s, e)| (plain(s), plain(e))).collect())
}

/// The first byte that a lower bound asks for.
pub open spec fn first_byte(b: RangeBound) -> int {
    match b {
        RangeBound::Included(s) => s as int,
        RangeBound::Excluded(s) => s + 1,
        RangeBound::Unbounded => 0,
    }
}

/// The last byte that an upper bound asks for in a file of `size` bytes.
pub open spec fn last_byte(b: RangeBound, size: u64) -> int {
    match b {
        RangeBound::Included(e) => e as int,
        RangeBound::Excluded(e) => e - 1,
        RangeBound::Unbounded => size - 1,
    }
}

/// The first and last byte of the range, both inclusive, if the range lies
/// in the file: `first <= last < size`.
pub open spec fn satisfied(start: RangeBound, end: RangeBound, size: u64) -> Option<(u64, u64)> {
    let s = first_byte(start);
    let e = last_byte(end, size);
    if s > e || e >= size {
        None
    } else {
        Some((s as u64, e as u64))
    }
}

/// Resolves two bounds against a file of `size` bytes.
pub fn resolve_bounds(start: RangeBound, end: RangeBound, size: u64) -> (r: Option<(u64, u64)>)
    ensures
        r == satisfied(start, end, size),
        r matches Some((s, e)) ==> s <= e < size,
{
    let s: u64 = match start {
        RangeBound::Included(s) => s,
        RangeBound::Excluded(s) => {
            if s == u64::MAX {
                return None;
            }
            s + 1
        },
        RangeBound::Unbounded => 0,
    };
    let e: u64 = match end {
        RangeBound::Included(e) => e,
        RangeBound::Excluded(e) => {
            if e == 0 {
                return None;
            }
            e - 1
        },
        RangeBound::Unbounded => {
            if size == 0 {
                return None;
            }
            size - 1
        },
    };
    if s > e || e >= size {
        None
    } else {
        Some((s, e))
    }
}

/// The first of `ranges[from..]` that lies in a file of `size` bytes, as
/// its first and last byte.
pub open spec fn first_satisfied(
    ranges: Seq<(RangeBound, RangeBound)>,
    size: u64,
    from: int,
) -> Option<(u64, u64)>
    decreases ranges.len() - from,
{
    if 0 <= from < ranges.len() {
        match satisfied(ranges[from].0, ranges[from].1, size) {
            Some(p) => Some(p),
            None => first_satisfied(ranges, size, from + 1),
        }
    } else {
        None
    }
}

/// Whether `ranges[i]` is the first of `ranges` that lies in the file, with
/// the first and last byte `p`.
pub open spec fn is_first_satisfied(
    ranges: Seq<(RangeBound, RangeBound)>,
    size: u64,
    i: int,
    p: (u64, u64),
) -> bool {
    &&& 0 <= i < ranges.len()
    &&& satisfied(ranges[i].0, ranges[i].1, size) == Some(p)
    &&& forall|j: int| 0 <= j < i ==> satisfied(#[trigger] ranges[j].0, ranges[j].1, size) is None
}

/// Picks the range that is served: of all ranges that a header asks for,
/// the first that lies in the file. The ranges before it do not lie in
/// the file and are passed over; the ranges behind it are not served.
pub fn first_satisfiable(ranges: &Vec<(RangeBound, RangeBound)>, size: u64) -> (r: Option<
    (u64, u64),
>)
    ensures
        r == first_satisfied(ranges@, size, 0),
        match r {
            Some(p) => p.0 <= p.1 < size && exists|i: int| is_first_satisfied(ranges@, size, i, p),
            None => forall|i: int|
                0 <= i < ranges@.len() ==> satisfied(#[trigger] ranges@[i].0, ranges@[i].1, size)
                    is None,
        },
{
    let mut i: usize = 0;
    while i < ranges.len()
        invariant
            i <= ranges.len(),
            first_satisfied(ranges@, size, 0) == first_satisfied(ranges@, size, i as int),
            forall|j: int|
                0 <= j < i ==> satisfied(#[trigger] ranges@[j].0, ranges@[j].1, size) is None,
        decreases ranges.len() - i,
    {
        let (start, end) = ranges[i];
        match resolve_bounds(start, end, size) {
            Some(p) => {
                assert(is_first_satisfied(ranges@, size, i as int, p));
                return Some(p);
            },
            None => {},
        }
        i = i + 1;
    }
    None
}

/// The part of the file that makes up a body: `length` bytes from `start`,
/// read through a buffer of `chunk_size` bytes.
#[derive(Debug, Clone, Copy, PartialEq, Eq, Structural)]
pub struct StreamPlan {
    pub start: u64,
    pub length: u64,
    pub chunk_size: usize,
}

/// The bytes that a plan sends of a file.
pub open spec fn body_bytes(file: Seq<u8>, plan: StreamPlan) -> Seq<u8> {
    file.subrange(plan.start as int, plan.start + plan.length)
}

/// The answer to a request for a file's content, as plain values.
#[derive(Debug)]
pub struct RangeResponse {
    pub status: u16,
    /// `Content-Type`.
    pub content_type: Option<String>,
    /// Whether `Accept-Ranges: bytes` is sent.
    pub accept_ranges: bool,
    /// `Content-Range`.
    pub content_range: Option<String>,
    /// `Cache-Control`.
    pub cache_control: Option<String>,
    /// What to stream; `None` for an empty body.
    pub body: Option<StreamPlan>,
}

/// A `RangeResponse` as a value.
pub struct ResponseView {
    pub status: u16,
    pub content_type: Option<Seq<char>>,
    pub accept_ranges: bool,
    pub content_range: Option<Seq<char>>,
    pub cache_control: Option<Seq<char>>,
    pub body: Option<StreamPlan>,
}

impl View for RangeResponse {
    type V = ResponseView;

    open spec fn view(&self) -> ResponseView {
        ResponseView {
            status: self.status,
            content_type: optional_text(self.content_type),
            accept_ranges: self.accept_ranges,
            content_range: optional_text(self.content_range),
            cache_control: optional_text(self.cache_control),
            body: self.body,
        }
    }
}

/// The value of `Content-Range` for the bytes `first` to `last` of `size`.
pub open spec fn content_range_text(first: u64, last: u64, size: u64) -> Seq<char> {
    "bytes "@ + decimal(first as nat) + "-"@ + decimal(last as nat) + "/"@ + decimal(size as nat)
}

/// Writes the value of `Content-Range`.
pub fn content_range(first: u64, last: u64, size: u64) -> (r: String)
    ensures
        r@ == content_range_text(first, last, size),
{
    let mut out = "bytes ".to_owned();
    let a = decimal_text(first);
    out.append(a.as_str());
    out.append("-");
    let b = decimal_text(last);
    out.append(b.as_str());
    out.append("/");
    let c = decimal_text(size);
    out.append(c.as_str());
    assert(out@ =~= content_range_text(first, last, size));
    out
}

/// The whole file: status 200.
pub open spec fn full_view(size: u64, mime: Seq<char>) -> ResponseView {
    ResponseView {
        status: 200,
        content_type: Some(mime),
        accept_ranges: true,
        content_range: None,
        cache_control: None,
        body: Some(StreamPlan { start: 0, length: size, chunk_size: CHUNK_SIZE }),
    }
}

/// The bytes `first` to `last`: status 206.
pub open spec fn partial_view(first: u64, last: u64, size: u64, mime: Seq<char>) -> ResponseView {
    ResponseView {
        status: 206,
        content_type: Some(mime),
        accept_ranges: true,
        content_range: Some(content_range_text(first, last, size)),
        cache_control: Some("public, max-age=86400"@),
        body: Some(
            StreamPlan { start: first, length: (last - first + 1) as u64, chunk_size: CHUNK_SIZE },
        ),
    }
}

/// A refusal without headers or body.
pub open spec fn refusal_view(status: u16) -> ResponseView {
    ResponseView {
        status: status,
        content_type: None,
        accept_ranges: false,
        content_range: None,
        cache_control: None,
        body: None,
    }
}

/// The answer to the ranges that a header asks for of a file of `size`
/// bytes: 400 for a header that is no byte-range header, 416 where no
/// range lies in the file, else 206 with the first range that does.
pub open spec fn ranged_view(
    ranges: Option<Seq<(RangeBound, RangeBound)>>,
    size: u64,
    mime: Seq<char>,
) -> ResponseView {
    match ranges {
        None => refusal_view(400),
        Some(all) => match first_satisfied(all, size, 0) {
            Some((first, last)) => partial_view(first, last, size, mime),
            None => refusal_view(416),
        },
    }
}

fn refusal(status: u16) -> (r: RangeResponse)
    ensures
        r@ == refusal_view(status),
{
    RangeResponse {
        status: status,
        content_type: None,
        accept_ranges: false,
        content_range: None,
        cache_control: None,
        body: None,
    }
}

/// Answers a request without a `Range` header with the whole file.
pub fn full_response(size: u64, mime: &str) -> (r: RangeResponse)
    ensures
        r@ == full_view(size, mime@),
{
    RangeResponse {
        status: 200,
        content_type: Some(mime.to_owned()),
        accept_ranges: true,
        content_range: None,
        cache_control: None,
        body: Some(StreamPlan { start: 0, length: size, chunk_size: CHUNK_SIZE }),
    }
}

/// Answers a request whose `Range` header was decoded already.
pub fn serve_range(ranges: &Option<Vec<(RangeBound, RangeBound)>>, size: u64, mime: &str) -> (r:
    RangeResponse)
    ensures
        r@ == ranged_view(ranges_view(*ranges), size, mime@),
{
    match ranges {
        None => refusal(400),
        Some(all) => match first_satisfiable(all, size) {
            Some((first, last)) => RangeResponse {
                status: 206,
                content_type: Some(mime.to_owned()),
                accept_ranges: true,
                content_range: Some(content_range(first, last, size)),
                cache_control: Some("public, max-age=86400".to_owned()),
                body: Some(
                    StreamPlan { start: first, length: last - first + 1, chunk_size: CHUNK_SIZE },
                ),
            },
            None => refusal(416),
        },
    }
}

/// The answer to a request for the bytes `first` to `last` of a file of
/// `size` bytes: 206 with exactly these bytes if they lie in the file,
/// else 416 without body.
pub open spec fn closed_range_view(
    first: u64,
    last: u64,
    size: u64,
    mime: Seq<char>,
) -> ResponseView {
    if first <= last < size {
        partial_view(first, last, size, mime)
    } else {
        refusal_view(416)
    }
}

/// The answer to a request for all bytes from `first` on.
pub open spec fn open_range_view(first: u64, size: u64, mime: Seq<char>) -> ResponseView {
    if first < size {
        partial_view(first, (size - 1) as u64, size, mime)
    } else {
        refusal_view(416)
    }
}

/// The answer to a request for the last `count` bytes.
pub open spec fn suffix_range_view(count: u64, size: u64, mime: Seq<char>) -> ResponseView {
    if 0 < count <= size {
        partial_view((size - count) as u64, (size - 1) as u64, size, mime)
    } else {
        refusal_view(416)
    }
}

/// What the answers to the three plain forms of a header are.
pub open spec fn plain_forms_answered(
    header: Seq<char>,
    size: u64,
    mime: Seq<char>,
    r: ResponseView,
) -> bool {
    &&& forall|first: u64, last: u64|
        header == #[trigger] closed_range_header(first, last) ==> r == closed_range_view(
            first,
            last,
            size,
            mime,
        )
    &&& forall|first: u64|
        header == #[trigger] open_range_header(first) ==> r == open_range_view(first, size, mime)
    &&& forall|count: u64|
        header == #[trigger] suffix_range_header(count) ==> r == suffix_range_view(
            count,
            size,
            mime,
        )
}

/// Answers a request for a file of `size` bytes that carries the `Range`
/// header `range`.
///
/// A header `bytes=first-last` with `first <= last < size` is answered
/// with status 206, `Content-Range: bytes first-last/size` and the bytes
/// `first` to `last`; with `first > last` or `last >= size` it is answered
/// with status 416 and no body.
pub fn build_range_response(size: u64, mime: &str, range: &str) -> (r: RangeResponse)
    ensures
        r@ == ranged_view(header_ranges(range@, size), size, mime@),
        plain_forms_answered(range@, size, mime@, r@),
{
    let ranges = decode_ranges(range, size);
    let r = serve_range(&ranges, size, mime);
    proof {
        assert forall|first: u64, last: u64|
            range@ == #[trigger] closed_range_header(first, last) implies r@ == closed_range_view(
            first,
            last,
            size,
            mime@,
        ) by {
            lemma_one_range(RangeBound::Included(first), RangeBound::Included(last), size);
        }
        assert forall|first: u64| range@ == #[trigger] open_range_header(first) implies r@
            == open_range_view(first, size, mime@) by {
            lemma_one_range(RangeBound::Included(first), RangeBound::Unbounded, size);
        }
        assert forall|count: u64| range@ == #[trigger] suffix_range_header(count) implies r@
            == suffix_range_view(count, size, mime@) by {
            if count <= size {
                lemma_one_range(
                    RangeBound::Included((size - count) as u64),
                    RangeBound::Unbounded,
                    size,
                );
            }
        }
    }
    r
}

/// Of one range, the first that lies in the file is that range, if it
/// does.
pub proof fn lemma_one_range(start: RangeBound, end: RangeBound, size: u64)
    ensures
        first_satisfied(seq![(start, end)], size, 0) == satisfied(start, end, size),
{
    let one = seq![(start, end)];
    assert(one[0] == (start, end));
    assert(first_satisfied(one, size, 1) is None);
}

/// What `first_satisfied` finds is the first range that lies in the file,
/// and it finds nothing only where none does.
pub proof fn lemma_first_satisfied(ranges: Seq<(RangeBound, RangeBound)>, size: u64, from: int)
    requires
        0 <= from,
    ensures
        match first_satisfied(ranges, size, from) {
            Some(p) => p.0 <= p.1 < size && exists|i: int|
                from <= i < ranges.len() && satisfied(#[trigger] ranges[i].0, ranges[i].1, size)
                    == Some(p) && forall|j: int|
                    from <= j < i ==> satisfied(#[trigger] ranges[j].0, ranges[j].1, size) is None,
            None => forall|i: int|
                from <= i < ranges.len() ==> satisfied(#[trigger] ranges[i].0, ranges[i].1, size)
                    is None,
        },
    decreases ranges.len() - from,
{
    if from < ranges.len() {
        match satisfied(ranges[from].0, ranges[from].1, size) {
            Some(p) => {
                assert(satisfied(ranges[from].0, ranges[from].1, size) == Some(p));
            },
            None => {
                lemma_first_satisfied(ranges, size, from + 1);
                match first_satisfied(ranges, size, from + 1) {
                    Some(p) => {
                        let i = choose|i: int|
                            from + 1 <= i < ranges.len() && satisfied(
                                #[trigger] ranges[i].0,
                                ranges[i].1,
                                size,
                            ) == Some(p) && forall|j: int|
                                from + 1 <= j < i ==> satisfied(
                                    #[trigger] ranges[j].0,
                                    ranges[j].1,
                                    size,
                                ) is None;
                        assert(from <= i < ranges.len() && satisfied(ranges[i].0, ranges[i].1, size)
                            == Some(p));
                        assert forall|j: int| from <= j < i implies satisfied(
                            #[trigger] ranges[j].0,
                            ranges[j].1,
                            size,
                        ) is None by {}
                    },
                    None => {},
                }
            },
        }
    }
}

/// Of several ranges the first that lies in the file is served, with
/// status 206, and no other: ranges before it that do not lie in the file
/// are passed over.
pub proof fn lemma_first_range_in_file_is_served(
    ranges: Seq<(RangeBound, RangeBound)>,
    size: u64,
    mime: Seq<char>,
    i: int,
    p: (u64, u64),
)
    requires
        is_first_satisfied(ranges, size, i, p),
    ensures
        ranged_view(Some(ranges), size, mime) == partial_view(p.0, p.1, size, mime),
{
    lemma_passed_over(ranges, size, i, 0);
}

proof fn lemma_passed_over(ranges: Seq<(RangeBound, RangeBound)>, size: u64, i: int, from: int)
    requires
        0 <= from <= i < ranges.len(),
        satisfied(ranges[i].0, ranges[i].1, size) is Some,
        forall|j: int| 0 <= j < i ==> satisfied(#[trigger] ranges[j].0, ranges[j].1, size) is None,
    ensures
        first_satisfied(ranges, size, from) == satisfied(ranges[i].0, ranges[i].1, size),
    decreases i - from,
{
    if from < i {
        assert(satisfied(ranges[from].0, ranges[from].1, size) is None);
        lemma_passed_over(ranges, size, i, from + 1);
    }
}

/// The answer to a request, with or without a `Range` header.
pub open spec fn served_view(size: u64, mime: Seq<char>, range: Option<Seq<char>>) -> ResponseView {
    match range {
        Some(h) => ranged_view(header_ranges(h, size), size, mime),
        None => full_view(size, mime),
    }
}

/// Answers a request for the content of a file of `size` bytes: the whole
/// file where no `Range` header came, else what the header asks for.
pub fn serve(size: u64, mime: &str, range: Option<&str>) -> (r: RangeResponse)
    ensures
        r@ == served_view(size, mime@, optional_str(range)),
        range matches Some(h) ==> plain_forms_answered(h@, size, mime@, r@),
{
    match range {
        Some(h) => build_range_response(size, mime, h),
        None => full_response(size, mime),
    }
}

/// A range that lies in the file is answered with status 206, with the
/// `Content-Range` of its two ends and the file's length, and with a body
/// of `last - first + 1` bytes: the bytes `first` to `last` of the file.
pub proof fn lemma_range_in_file(file: Seq<u8>, first: u64, last: u64, mime: Seq<char>)
    requires
        first <= last < file.len() <= u64::MAX,
    ensures
        ({
            let size = file.len() as u64;
            let r = ranged_view(
                Some(seq![(RangeBound::Included(first), RangeBound::Included(last))]),
                size,
                mime,
            );
            &&& r.status == 206
            &&& r.content_type == Some(mime)
            &&& r.content_range == Some(content_range_text(first, last, size))
            &&& r.body matches Some(plan) && body_bytes(file, plan) == file.subrange(
                first as int,
                last + 1,
            ) && body_bytes(file, plan).len() == last - first + 1
        }),
{
    lemma_one_range(
        RangeBound::Included(first),
        RangeBound::Included(last),
        file.len() as u64,
    );
}

/// A range whose first byte lies behind its last, or whose last byte lies
/// behind the end of the file, is answered with status 416 and no body.
pub proof fn lemma_range_outside_file(
    start: RangeBound,
    end: RangeBound,
    size: u64,
    mime: Seq<char>,
)
    requires
        first_byte(start) > last_byte(end, size) || last_byte(end, size) >= size,
    ensures
        ranged_view(Some(seq![(start, end)]), size, mime).status == 416,
        ranged_view(Some(seq![(start, end)]), size, mime).body is None,
{
    lemma_one_range(start, end, size);
}

/// Whatever the header asks for, a body that is sent lies in the file and
/// is not empty.
pub proof fn lemma_body_lies_in_file(
    ranges: Option<Seq<(RangeBound, RangeBound)>>,
    size: u64,
    mime: Seq<char>,
)
    ensures
        ranged_view(ranges, size, mime).body matches Some(plan) ==> plan.length >= 1 && plan.start
            + plan.length <= size,
        ranged_view(ranges, size, mime).status == 206 <==> ranged_view(
            ranges,
            size,
            mime,
        ).body is Some,
{
    match ranges {
        Some(all) => {
            lemma_first_satisfied(all, size, 0);
        },
        None => {},
    }
}

/// Without a `Range` header the answer has status 200 and its body is the
/// whole file, byte for byte.
pub proof fn lemma_full_body(file: Seq<u8>, mime: Seq<char>)
    requires
        file.len() <= u64::MAX,
    ensures
        served_view(file.len() as u64, mime, None).status == 200,
        served_view(file.len() as u64, mime, None).body matches Some(plan) && body_bytes(file, plan)
            == file,
{
    let plan = served_view(file.len() as u64, mime, None).body->0;
    assert(body_bytes(file, plan) =~= file);
}

} // verus!
