//! Extraction of one complete STOMP frame from the front of a byte buffer.
//!
//! A frame is a header block, a blank line (two line feeds), a body, and a
//! terminating NUL byte. The body ends after `content-length` bytes when the
//! headers carry that line, and at the first NUL byte otherwise.
use vstd::prelude::*;
use vstd::slice::slice_to_vec;
use crate::text::{
    chars_of, lossy_text, parse_usize, parse_usize_in, trim_bounds, trimmed, utf8_lossy,
};

verus! {

/// The line-feed byte; two of them end the header block.
pub const LF: u8 = 10;

/// The NUL byte that terminates a frame.
pub const SENTINEL: u8 = 0;

/// A complete frame: its header block as text, and its body.
pub struct StompFrame {
    pub headers: String,
    pub body: Vec<u8>,
}

/// The abstract value of a frame.
pub ghost struct FrameModel {
    pub headers: Seq<char>,
    pub body: Seq<u8>,
}

impl View for StompFrame {
    type V = FrameModel;

    open spec fn view(&self) -> FrameModel {
        FrameModel { headers: self.headers@, body: self.body@ }
    }
}

/// The first position `p >= i` where `data[p]` and `data[p + 1]` are both line feeds.
pub open spec fn separator_from(data: Seq<u8>, i: nat) -> Option<nat>
    decreases data.len() - i,
{
    if i + 1 >= data.len() {
        None
    } else if data[i as int] == LF && data[i + 1 as int] == LF {
        Some(i)
    } else {
        separator_from(data, i + 1)
    }
}

/// Where the header block ends: the first blank line.
pub open spec fn header_block_end(data: Seq<u8>) -> Option<nat> {
    separator_from(data, 0)
}

/// The first position `p >= i` that holds a NUL byte.
pub open spec fn sentinel_from(data: Seq<u8>, i: nat) -> Option<nat>
    decreases data.len() - i,
{
    if i >= data.len() {
        None
    } else if data[i as int] == SENTINEL {
        Some(i)
    } else {
        sentinel_from(data, i + 1)
    }
}

/// The characters of `content-length:`.
pub open spec fn content_length_key() -> Seq<char> {
    seq!['c', 'o', 'n', 't', 'e', 'n', 't', '-', 'l', 'e', 'n', 'g', 't', 'h', ':']
}

/// The length that one header line declares, if it is a `content-length`
/// line whose value parses.
pub open spec fn line_content_length(line: Seq<char>) -> Option<usize> {
    if content_length_key().is_prefix_of(line) {
        parse_usize(trimmed(line.skip(content_length_key().len() as int)))
    } else {
        None
    }
}

/// The length of the first line of `h`: up to the first line feed, or all of `h`.
pub open spec fn line_len(h: Seq<char>) -> nat
    decreases h.len(),
{
    if h.len() == 0 || h[0] == '\n' {
        0
    } else {
        1 + line_len(h.drop_first())
    }
}

/// The body length that a header block declares: the value of its first
/// `content-length` line whose value parses.
pub open spec fn content_length_in(h: Seq<char>) -> Option<usize>
    decreases h.len(),
{
    let n = line_len(h);
    if line_content_length(h.take(n as int)) is Some {
        line_content_length(h.take(n as int))
    } else if n < h.len() {
        content_length_in(h.skip(n + 1 as int))
    } else {
        None
    }
}

/// The frame whose body is the `len` bytes at `start`, followed by one
/// terminating byte.
pub open spec fn fixed_frame(data: Seq<u8>, start: nat, len: nat, headers: Seq<char>) -> Option<
    (nat, FrameModel),
> {
    if start + len + 1 <= data.len() {
        Some(
            (
                (start + len + 1) as nat,
                FrameModel { headers, body: data.subrange(start as int, (start + len) as int) },
            ),
        )
    } else {
        None
    }
}

/// The frame whose body runs from `start` to the next NUL byte.
pub open spec fn terminated_frame(data: Seq<u8>, start: nat, headers: Seq<char>) -> Option<
    (nat, FrameModel),
> {
    match sentinel_from(data, start) {
        Some(z) => Some(
            ((z + 1) as nat, FrameModel { headers, body: data.subrange(start as int, z as int) }),
        ),
        None => None,
    }
}

/// The frame whose header block `headers` ends at `start`: delimited by its
/// declared length when it has one, by the next NUL byte otherwise.
pub open spec fn frame_from(data: Seq<u8>, start: nat, headers: Seq<char>) -> Option<
    (nat, FrameModel),
> {
    match content_length_in(headers) {
        Some(len) => fixed_frame(data, start, len as nat, headers),
        None => terminated_frame(data, start, headers),
    }
}

/// The frame at the front of `data`, with the number of bytes it takes, or
/// `None` when `data` does not yet hold a complete frame.
pub open spec fn frame_spec(data: Seq<u8>) -> Option<(nat, FrameModel)> {
    match header_block_end(data) {
        Some(p) => frame_from(data, p + 2, utf8_lossy(data.take(p as int))),
        None => None,
    }
}

/// `r` is the executable form of `m`.
pub open spec fn frame_result(r: Option<(usize, StompFrame)>, m: Option<(nat, FrameModel)>) -> bool {
    match r {
        Some((n, f)) => m == Some((n as nat, f@)),
        None => m is None,
    }
}

/// Finds the blank line that ends the header block: the length of the
/// header block, and where the body starts.
pub fn find_header_end(data: &[u8]) -> (r: Option<(usize, usize)>)
    ensures
        match r {
            Some((len, end)) => header_block_end(data@) == Some(len as nat) && end == len + 2
                && end <= data@.len(),
            None => header_block_end(data@) is None,
        },
{
    let mut i: usize = 0;
    while i < data.len() && data.len() - i > 1
        invariant
            i <= data.len(),
            header_block_end(data@) == separator_from(data@, i as nat),
        decreases data.len() - i,
    {
        if data[i] == LF && data[i + 1] == LF {
            return Some((i, i + 2));
        }
        i = i + 1;
    }
    None
}

proof fn lemma_line_len(h: Seq<char>, k: int)
    requires
        0 <= k <= h.len(),
        forall|j: int| 0 <= j < k ==> h[j] != '\n',
        k == h.len() || h[k] == '\n',
    ensures
        line_len(h) == k,
    decreases k,
{
    if k > 0 {
        lemma_line_len(h.drop_first(), k - 1);
    }
}

/// The length that the line `cs[lo..hi]` declares, if it is a
/// `content-length` line whose value parses.
fn line_length_value(cs: &Vec<char>, lo: usize, hi: usize) -> (r: Option<usize>)
    requires
        lo <= hi <= cs.len(),
    ensures
        r == line_content_length(cs@.subrange(lo as int, hi as int)),
{
    let ghost line = cs@.subrange(lo as int, hi as int);
    let key: Vec<char> = vec!['c', 'o', 'n', 't', 'e', 'n', 't', '-', 'l', 'e', 'n', 'g', 't', 'h', ':'];
    assert(key@ == content_length_key());
    if hi - lo < key.len() {
        return None;
    }
    let mut k: usize = 0;
    while k < key.len()
        invariant
            lo <= hi <= cs.len(),
            key@ == content_length_key(),
            key.len() <= hi - lo,
            k <= key.len(),
            forall|j: int| 0 <= j < k ==> cs@[lo + j] == key@[j],
        decreases key.len() - k,
    {
        if cs[lo + k] != key[k] {
            assert(cs@.subrange(lo as int, hi as int).subrange(0, key.len() as int)[k as int]
                != key@[k as int]);
            return None;
        }
        k = k + 1;
    }
    assert(line.subrange(0, key.len() as int) =~= key@);
    let (a, b) = trim_bounds(cs, lo + key.len(), hi);
    assert(line.skip(key.len() as int) =~= cs@.subrange(lo + key.len(), hi as int));
    parse_usize_in(cs, a, b)
}

/// Looks for a header line `content-length:<n>` and returns its value.
pub fn get_content_length(headers: &str) -> (r: Option<usize>)
    ensures
        r == content_length_in(headers@),
{
    let cs = chars_of(headers);
    let n = cs.len();
    let mut pos: usize = 0;
    assert(cs@.skip(0) =~= cs@);
    loop
        invariant
            cs@ == headers@,
            n == cs.len(),
            pos <= n,
            content_length_in(cs@) == content_length_in(cs@.skip(pos as int)),
        decreases n - pos,
    {
        let mut e = pos;
        while e < n && cs[e] != '\n'
            invariant
                pos <= e <= n,
                n == cs.len(),
                forall|j: int| pos <= j < e ==> cs@[j] != '\n',
            decreases n - e,
        {
            e = e + 1;
        }
        let ghost rest = cs@.skip(pos as int);
        proof {
            lemma_line_len(rest, e - pos);
        }
        assert(rest.take(e - pos) =~= cs@.subrange(pos as int, e as int));
        let v = line_length_value(&cs, pos, e);
        if v.is_some() {
            return v;
        }
        if e == n {
            return None;
        }
        assert(rest.skip(e - pos + 1) =~= cs@.skip(e + 1));
        pos = e + 1;
    }
}

/// Takes a body of exactly `body_length` bytes after the header block,
/// followed by one terminating byte.
pub fn parse_fixed_length_body(data: &[u8], header_end: usize, body_length: usize, headers: &str) -> (r: Option<(usize, StompFrame)>)
    requires
        header_end <= data@.len(),
    ensures
        frame_result(r, fixed_frame(data@, header_end as nat, body_length as nat, headers@)),
{
    if body_length >= data.len() - header_end {
        return None;
    }
    let total_length = header_end + body_length + 1;
    let body = slice_to_vec(&data[header_end..header_end + body_length]);
    Some((total_length, StompFrame { headers: headers.to_owned(), body }))
}

/// Takes a body that runs from the end of the header block to the next NUL
/// byte, which is consumed too.
pub fn parse_null_terminated_body(data: &[u8], header_end: usize, headers: &str) -> (r: Option<(usize, StompFrame)>)
    requires
        header_end <= data@.len(),
    ensures
        frame_result(r, terminated_frame(data@, header_end as nat, headers@)),
{
    let mut i = header_end;
    while i < data.len() && data[i] != SENTINEL
        invariant
            header_end <= i <= data.len(),
            sentinel_from(data@, header_end as nat) == sentinel_from(data@, i as nat),
        decreases data.len() - i,
    {
        i = i + 1;
    }
    if i == data.len() {
        return None;
    }
    let body = slice_to_vec(&data[header_end..i]);
    Some((i + 1, StompFrame { headers: headers.to_owned(), body }))
}

/// Takes the body that follows a header block ending at `header_end`.
pub fn parse_body(data: &[u8], header_end: usize, headers: &str) -> (r: Option<(usize, StompFrame)>)
    requires
        header_end <= data@.len(),
    ensures
        frame_result(r, frame_from(data@, header_end as nat, headers@)),
{
    match get_content_length(headers) {
        Some(len) => parse_fixed_length_body(data, header_end, len, headers),
        None => parse_null_terminated_body(data, header_end, headers),
    }
}

/// Parses the complete frame at the front of `data`: the number of bytes it
/// takes, and the frame. `None` when `data` does not yet hold one.
pub fn parse_stomp_frame(data: &[u8]) -> (r: Option<(usize, StompFrame)>)
    ensures
        frame_result(r, frame_spec(data@)),
{
    match find_header_end(data) {
        Some((header_len, header_end)) => {
            let headers = lossy_text(&data[0..header_len]);
            assert(data@.subrange(0, header_len as int) =~= data@.take(header_len as int));
            let r = parse_body(data, header_end, headers.as_str());
            assert(headers@ == utf8_lossy(data@.take(header_len as int)));
            r
        },
        None => None,
    }
}

} // verus!
