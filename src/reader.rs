//! The stream reader: an accumulator of received bytes from which complete
//! frames are taken, in order, and decoded into messages.
use vstd::prelude::*;
use crate::frame::{
    fixed_frame, frame_from, frame_spec, header_block_end, parse_stomp_frame, sentinel_from,
    separator_from, terminated_frame, FrameModel,
};
use crate::message::{decode_body, message_of};

verus! {

/// Holds the bytes received so far that no emitted frame has taken yet.
pub struct StreamReader {
    accumulated: Vec<u8>,
}

impl View for StreamReader {
    type V = Seq<u8>;

    closed spec fn view(&self) -> Seq<u8> {
        self.accumulated@
    }
}

/// The messages of the complete frames at the front of `acc`, in order, and
/// the bytes left after them.
pub open spec fn drain(acc: Seq<u8>) -> (Seq<Seq<char>>, Seq<u8>)
    decreases acc.len(),
{
    match frame_spec(acc) {
        Some((n, f)) => if 0 < n <= acc.len() {
            let rest = drain(acc.skip(n as int));
            (seq![message_of(f.body)] + rest.0, rest.1)
        } else {
            (Seq::empty(), acc)
        },
        None => (Seq::empty(), acc),
    }
}

/// What reading `chunks` one after another gives, starting from the
/// accumulator `acc`: all messages, in order, and the bytes left.
pub open spec fn feed_all(acc: Seq<u8>, chunks: Seq<Seq<u8>>) -> (Seq<Seq<char>>, Seq<u8>)
    decreases chunks.len(),
{
    if chunks.len() == 0 {
        (Seq::empty(), acc)
    } else {
        let first = drain(acc + chunks[0]);
        let rest = feed_all(first.1, chunks.drop_first());
        (first.0 + rest.0, rest.1)
    }
}

/// The texts of a sequence of strings.
pub open spec fn texts(v: Seq<String>) -> Seq<Seq<char>> {
    v.map_values(|s: String| s@)
}

proof fn lemma_separator_bounds(data: Seq<u8>, i: nat)
    ensures
        separator_from(data, i) matches Some(p) ==> i <= p && p + 1 < data.len(),
    decreases data.len() - i,
{
    if i + 1 < data.len() && !(data[i as int] == 10 && data[i + 1 as int] == 10) {
        lemma_separator_bounds(data, i + 1);
    }
}

proof fn lemma_sentinel_bounds(data: Seq<u8>, i: nat)
    ensures
        sentinel_from(data, i) matches Some(z) ==> i <= z < data.len(),
    decreases data.len() - i,
{
    if i < data.len() && data[i as int] != 0 {
        lemma_sentinel_bounds(data, i + 1);
    }
}

/// A complete frame takes at least one byte and no more than the buffer holds.
pub proof fn lemma_frame_bounds(data: Seq<u8>)
    ensures
        frame_spec(data) matches Some((n, f)) ==> 0 < n <= data.len(),
{
    lemma_separator_bounds(data, 0);
    if let Some(p) = header_block_end(data) {
        lemma_sentinel_bounds(data, p + 2);
    }
}

proof fn lemma_separator_prefix(a: Seq<u8>, b: Seq<u8>, i: nat)
    requires
        separator_from(a, i) is Some,
    ensures
        separator_from(a + b, i) == separator_from(a, i),
    decreases a.len() - i,
{
    if i + 1 < a.len() && !(a[i as int] == 10 && a[i + 1 as int] == 10) {
        lemma_separator_prefix(a, b, i + 1);
    }
}

proof fn lemma_sentinel_prefix(a: Seq<u8>, b: Seq<u8>, i: nat)
    requires
        sentinel_from(a, i) is Some,
    ensures
        sentinel_from(a + b, i) == sentinel_from(a, i),
    decreases a.len() - i,
{
    if i < a.len() && a[i as int] != 0 {
        lemma_sentinel_prefix(a, b, i + 1);
    }
}

/// A frame complete in `a` is the same frame, of the same length, in `a + b`.
pub proof fn lemma_frame_prefix(a: Seq<u8>, b: Seq<u8>)
    requires
        frame_spec(a) is Some,
    ensures
        frame_spec(a + b) == frame_spec(a),
{
    let p = header_block_end(a)->0;
    let s: int = p as int + 2;
    lemma_separator_prefix(a, b, 0);
    lemma_separator_bounds(a, 0);
    assert((a + b).take(p as int) =~= a.take(p as int));
    let headers = crate::text::utf8_lossy(a.take(p as int));
    match crate::frame::content_length_in(headers) {
        Some(len) => {
            assert((a + b).subrange(s, s + len) =~= a.subrange(s, s + len));
        },
        None => {
            lemma_sentinel_prefix(a, b, p + 2);
            lemma_sentinel_bounds(a, p + 2);
            let z = sentinel_from(a, p + 2)->0;
            assert((a + b).subrange(s, z as int) =~= a.subrange(s, z as int));
        },
    }
}

/// Once no complete frame is left, draining takes nothing.
proof fn lemma_drain_rest(acc: Seq<u8>)
    ensures
        frame_spec(drain(acc).1) is None,
    decreases acc.len(),
{
    lemma_frame_bounds(acc);
    if let Some((n, f)) = frame_spec(acc) {
        lemma_drain_rest(acc.skip(n as int));
    }
}

/// Reading `a` and then `b` gives the messages that reading `a + b` at once
/// gives, in the same order, and leaves the same bytes.
pub proof fn lemma_drain_split(a: Seq<u8>, b: Seq<u8>)
    ensures
        drain(a + b) == ({
            let first = drain(a);
            let second = drain(first.1 + b);
            (first.0 + second.0, second.1)
        }),
    decreases a.len(),
{
    lemma_frame_bounds(a);
    match frame_spec(a) {
        Some((n, f)) => {
            lemma_frame_prefix(a, b);
            lemma_frame_bounds(a + b);
            let tail = a.skip(n as int);
            assert((a + b).skip(n as int) =~= tail + b);
            lemma_drain_split(tail, b);
            let m = seq![message_of(f.body)];
            let x = drain(tail).0;
            let y = drain(drain(tail).1 + b).0;
            assert(m + (x + y) =~= (m + x) + y);
        },
        None => {
            assert(Seq::<Seq<char>>::empty() + drain(a + b).0 =~= drain(a + b).0);
        },
    }
}

/// Reading the chunks one after another, from an accumulator that holds no
/// complete frame, gives the same messages and leaves the same bytes as
/// reading all their bytes in one read.
pub proof fn lemma_chunked_reads(acc: Seq<u8>, chunks: Seq<Seq<u8>>)
    requires
        frame_spec(acc) is None,
    ensures
        feed_all(acc, chunks) == drain(acc + chunks.flatten()),
    decreases chunks.len(),
{
    if chunks.len() == 0 {
        assert(acc + chunks.flatten() =~= acc);
    } else {
        let first = drain(acc + chunks[0]);
        lemma_drain_rest(acc + chunks[0]);
        lemma_chunked_reads(first.1, chunks.drop_first());
        lemma_drain_split(acc + chunks[0], chunks.drop_first().flatten());
        assert(acc + chunks.flatten() =~= (acc + chunks[0]) + chunks.drop_first().flatten());
    }
}

/// Splitting a byte stream into reads of any sizes does not change the
/// messages decoded from it, nor the bytes left waiting.
pub proof fn lemma_split_reads_match_one_read(chunks: Seq<Seq<u8>>)
    ensures
        feed_all(Seq::empty(), chunks) == feed_all(Seq::empty(), seq![chunks.flatten()]),
{
    let empty = Seq::<u8>::empty();
    assert(header_block_end(empty) is None);
    lemma_chunked_reads(empty, chunks);
    lemma_chunked_reads(empty, seq![chunks.flatten()]);
    let one = seq![chunks.flatten()];
    assert(one.drop_first() =~= Seq::<Seq<u8>>::empty());
    assert(one.flatten() =~= chunks.flatten() + one.drop_first().flatten());
    assert(one.flatten() =~= chunks.flatten());
}

/// Two complete frames that arrive in one read give exactly their two
/// messages, in order, and leave nothing behind.
pub proof fn lemma_two_frames_one_read(x: Seq<u8>, y: Seq<u8>, fx: FrameModel, fy: FrameModel)
    requires
        frame_spec(x) == Some((x.len(), fx)),
        frame_spec(y) == Some((y.len(), fy)),
    ensures
        drain(x + y) == (seq![message_of(fx.body), message_of(fy.body)], Seq::<u8>::empty()),
{
    lemma_frame_prefix(x, y);
    assert((x + y).skip(x.len() as int) =~= y);
    let empty = Seq::<u8>::empty();
    assert(y.skip(y.len() as int) =~= empty);
    assert(header_block_end(empty) is None);
    assert(drain(empty) == (Seq::<Seq<char>>::empty(), empty));
    assert(drain(y).0 =~= seq![message_of(fy.body)]);
    assert(drain(x + y).0 =~= seq![message_of(fx.body), message_of(fy.body)]);
}

/// A buffer whose header block has not ended yet gives no message and keeps
/// all its bytes.
pub proof fn lemma_incomplete_header(data: Seq<u8>)
    requires
        header_block_end(data) is None,
    ensures
        drain(data) == (Seq::<Seq<char>>::empty(), data),
{
}

impl StreamReader {
    /// A reader with an empty accumulator.
    pub fn new() -> (r: StreamReader)
        ensures
            r@ == Seq::<u8>::empty(),
    {
        StreamReader { accumulated: Vec::new() }
    }

    /// The bytes received that no frame has taken yet.
    pub fn pending(&self) -> (r: &[u8])
        ensures
            r@ == self@,
    {
        self.accumulated.as_slice()
    }

    /// Appends the bytes of one transport read to the accumulator.
    pub fn push_bytes(&mut self, chunk: &[u8])
        ensures
            final(self)@ == old(self)@ + chunk@,
    {
        self.accumulated.extend_from_slice(chunk);
        assert(self@ =~= old(self)@ + chunk@);
    }

    /// Takes the complete frame at the front of the accumulator, if there is
    /// one, and returns its message. The accumulator loses exactly the bytes
    /// of that frame; when no frame is complete it is left as it was.
    pub fn next_message(&mut self) -> (r: Option<String>)
        ensures
            match frame_spec(old(self)@) {
                Some((n, f)) => r is Some && r->0@ == message_of(f.body)
                    && final(self)@ == old(self)@.skip(n as int),
                None => r is None && final(self)@ == old(self)@,
            },
    {
        proof {
            lemma_frame_bounds(self@);
        }
        match parse_stomp_frame(self.accumulated.as_slice()) {
            Some((frame_len, frame)) => {
                let rest = self.accumulated.split_off(frame_len);
                self.accumulated = rest;
                Some(decode_body(frame.body.as_slice()))
            },
            None => None,
        }
    }

    /// Handles one transport read: appends `chunk`, then takes every frame
    /// that is complete, in order, and returns their messages.
    pub fn feed(&mut self, chunk: &[u8]) -> (r: Vec<String>)
        ensures
            texts(r@) == drain(old(self)@ + chunk@).0,
            final(self)@ == drain(old(self)@ + chunk@).1,
    {
        self.push_bytes(chunk);
        let ghost start = self@;
        let mut out: Vec<String> = Vec::new();
        assert(texts(out@) + drain(self@).0 =~= drain(start).0);
        loop
            invariant
                texts(out@) + drain(self@).0 == drain(start).0,
                drain(self@).1 == drain(start).1,
            ensures
                frame_spec(self@) is None,
                texts(out@) + drain(self@).0 == drain(start).0,
                drain(self@).1 == drain(start).1,
            decreases self@.len(),
        {
            let ghost before = self@;
            proof {
                lemma_frame_bounds(before);
            }
            match self.next_message() {
                Some(m) => {
                    let ghost prev = texts(out@);
                    out.push(m);
                    assert(texts(out@) =~= prev.push(m@));
                    assert(prev + drain(before).0 =~= texts(out@) + drain(self@).0);
                },
                None => {
                    break;
                },
            }
        }
        assert(texts(out@) + drain(self@).0 =~= texts(out@));
        out
    }
}

} // verus!
