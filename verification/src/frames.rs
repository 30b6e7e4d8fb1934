//! Length-prefixed frames: four bytes of little-endian length, then the payload.
use vstd::prelude::*;
use vstd::slice::slice_subrange;

verus! {

/// The length prefix of a frame, least significant byte first.
pub open spec fn header(n: nat) -> Seq<u8> {
    seq![
        (n % 256) as u8,
        (n / 256 % 256) as u8,
        (n / 65536 % 256) as u8,
        (n / 16777216 % 256) as u8,
    ]
}

/// The length that the first four bytes give.
pub open spec fn header_value(b: Seq<u8>) -> nat {
    (b[0] + 256 * b[1] + 65536 * b[2] + 16777216 * b[3]) as nat
}

/// A payload with its length in front.
pub open spec fn frame(payload: Seq<u8>) -> Seq<u8> {
    header(payload.len()) + payload
}

/// Payloads framed one after another.
pub open spec fn framed(ps: Seq<Seq<u8>>) -> Seq<u8>
    decreases ps.len(),
{
    if ps.len() == 0 {
        Seq::empty()
    } else {
        framed(ps.drop_last()) + frame(ps.last())
    }
}

/// How a run of frames ends.
#[derive(Clone, Copy, Debug, PartialEq, Eq, Structural)]
pub enum Tail {
    /// After a whole frame.
    Clean,
    /// Inside a length prefix.
    ShortHeader,
    /// Inside a payload.
    ShortPayload,
}

/// The end of the first frame of `b`, when it is whole.
pub open spec fn first_end(b: Seq<u8>) -> Option<nat> {
    if b.len() >= 4 && b.len() >= 4 + header_value(b) {
        Some(4 + header_value(b))
    } else {
        None
    }
}

/// The payloads of the whole frames at the front of `b`.
pub open spec fn payloads(b: Seq<u8>) -> Seq<Seq<u8>>
    decreases b.len(),
{
    match first_end(b) {
        Some(end) => seq![b.subrange(4, end as int)] + payloads(b.skip(end as int)),
        None => Seq::empty(),
    }
}

/// What comes after the whole frames at the front of `b`.
pub open spec fn tail(b: Seq<u8>) -> Tail
    decreases b.len(),
{
    match first_end(b) {
        Some(end) => tail(b.skip(end as int)),
        None => if b.len() == 0 {
            Tail::Clean
        } else if b.len() < 4 {
            Tail::ShortHeader
        } else {
            Tail::ShortPayload
        },
    }
}

/// The payload of the frame that starts at `at`, when it is whole.
pub open spec fn payload_at(b: Seq<u8>, at: nat) -> Option<Seq<u8>> {
    if at > b.len() {
        None
    } else {
        let rest = b.skip(at as int);
        match first_end(rest) {
            Some(end) => Some(rest.subrange(4, end as int)),
            None => None,
        }
    }
}

pub proof fn lemma_header_round_trip(n: nat)
    requires
        n <= u32::MAX,
    ensures
        header(n).len() == 4,
        header_value(header(n)) == n,
{
}

/// Whole frames in front leave what follows as it is.
pub proof fn lemma_payloads_concat(a: Seq<u8>, b: Seq<u8>)
    requires
        tail(a) == Tail::Clean,
    ensures
        payloads(a + b) == payloads(a) + payloads(b),
        tail(a + b) == tail(b),
    decreases a.len(),
{
    if a.len() == 0 {
        assert(a + b =~= b);
        assert(payloads(a) + payloads(b) =~= payloads(b));
    } else {
        let end = first_end(a)->0 as int;
        let t = a + b;
        assert(header_value(t) == header_value(a));
        assert(first_end(t) == first_end(a));
        assert(t.subrange(4, end) =~= a.subrange(4, end));
        assert(t.skip(end) =~= a.skip(end) + b);
        lemma_payloads_concat(a.skip(end), b);
        assert(payloads(t) =~= payloads(a) + payloads(b));
    }
}

/// One frame holds its payload and ends cleanly.
pub proof fn lemma_frame_reads_back(p: Seq<u8>)
    requires
        p.len() <= u32::MAX,
    ensures
        payloads(frame(p)) == seq![p],
        tail(frame(p)) == Tail::Clean,
{
    let f = frame(p);
    lemma_header_round_trip(p.len());
    assert(header_value(f) == header_value(header(p.len())));
    assert(f.subrange(4, f.len() as int) =~= p);
    assert(f.skip(f.len() as int) =~= Seq::<u8>::empty());
    let none = f.skip(f.len() as int);
    assert(first_end(none) is None);
    assert(payloads(none) =~= Seq::<Seq<u8>>::empty());
    assert(tail(none) == Tail::Clean);
    assert(first_end(f) == Some(f.len()));
    assert(payloads(f) =~= seq![p]);
}

/// Reading what was framed gives the payloads back, in order and complete.
pub proof fn lemma_framed_reads_back(ps: Seq<Seq<u8>>)
    requires
        forall|i: int| 0 <= i < ps.len() ==> (#[trigger] ps[i]).len() <= u32::MAX,
    ensures
        payloads(framed(ps)) == ps,
        tail(framed(ps)) == Tail::Clean,
    decreases ps.len(),
{
    if ps.len() == 0 {
        assert(payloads(framed(ps)) =~= ps);
    } else {
        let front = ps.drop_last();
        assert forall|i: int| 0 <= i < front.len() implies (#[trigger] front[i]).len()
            <= u32::MAX by {
            assert(front[i] == ps[i]);
        }
        lemma_framed_reads_back(front);
        assert(ps[ps.len() - 1].len() <= u32::MAX);
        lemma_frame_reads_back(ps.last());
        lemma_payloads_concat(framed(front), frame(ps.last()));
        assert(front + seq![ps.last()] =~= ps);
    }
}

/// The payloads of a run of frames are all short enough for their prefix.
pub proof fn lemma_payloads_short(b: Seq<u8>)
    ensures
        forall|i: int| 0 <= i < payloads(b).len() ==> (#[trigger] payloads(b)[i]).len()
            <= u32::MAX,
    decreases b.len(),
{
    if first_end(b) is Some {
        let end = first_end(b)->0 as int;
        lemma_payloads_short(b.skip(end));
        let rest = payloads(b.skip(end));
        assert forall|i: int| 0 <= i < payloads(b).len() implies (#[trigger] payloads(b)[i]).len()
            <= u32::MAX by {
            if i > 0 {
                assert(payloads(b)[i] == rest[i - 1]);
            }
        }
    }
}

pub proof fn lemma_header_unique(b: Seq<u8>)
    requires
        b.len() >= 4,
    ensures
        header(header_value(b)) == b.take(4),
{
    let n = header_value(b);
    assert(n % 256 == b[0]);
    assert(n / 256 % 256 == b[1]);
    assert(n / 65536 % 256 == b[2]);
    assert(n / 16777216 % 256 == b[3]);
    assert(header(n) =~= b.take(4));
}

/// A run of frames that ends cleanly is its payloads framed again.
pub proof fn lemma_clean_is_framed(b: Seq<u8>)
    requires
        tail(b) == Tail::Clean,
    ensures
        b == framed(payloads(b)),
    decreases b.len(),
{
    if b.len() == 0 {
        assert(b =~= framed(payloads(b)));
    } else {
        let end = first_end(b)->0 as int;
        let rest = b.skip(end);
        lemma_clean_is_framed(rest);
        lemma_header_unique(b);
        let p = b.subrange(4, end);
        assert(b =~= frame(p) + rest);
        lemma_framed_concat(seq![p], payloads(rest));
        lemma_framed_single(p);
    }
}

pub proof fn lemma_framed_concat(a: Seq<Seq<u8>>, b: Seq<Seq<u8>>)
    ensures
        framed(a + b) == framed(a) + framed(b),
    decreases b.len(),
{
    if b.len() == 0 {
        assert(a + b =~= a);
        assert(framed(a) + framed(b) =~= framed(a));
    } else {
        assert((a + b).drop_last() =~= a + b.drop_last());
        lemma_framed_concat(a, b.drop_last());
        assert(framed(a + b) =~= framed(a) + framed(b));
    }
}

pub proof fn lemma_framed_single(p: Seq<u8>)
    ensures
        framed(seq![p]) == frame(p),
{
    let front = seq![p].drop_last();
    assert(front =~= Seq::<Seq<u8>>::empty());
    assert(framed(front) =~= Seq::<u8>::empty());
    assert(framed(seq![p]) =~= frame(p));
}

proof fn lemma_regroup(a: Seq<u8>, b: Seq<u8>, c: Seq<u8>, d: Seq<u8>, e: Seq<u8>)
    ensures
        a + (b + (c + d)) + e == (a + b) + (c + (d + e)),
{
    assert(a + (b + (c + d)) + e =~= (a + b) + (c + (d + e)));
}

proof fn lemma_payload_behind(base: Seq<u8>, p: Seq<u8>, after: Seq<u8>)
    requires
        p.len() <= u32::MAX,
    ensures
        payload_at(base + (frame(p) + after), base.len()) == Some(p),
{
    let s = frame(p) + after;
    assert((base + s).skip(base.len() as int) =~= s);
    lemma_header_round_trip(p.len());
    assert(header_value(s) == header_value(header(p.len())));
    assert(s.subrange(4, 4 + p.len() as int) =~= p);
}

/// The frame of the `i`th payload starts where the frames before it end.
pub proof fn lemma_payload_at_offset(base: Seq<u8>, ps: Seq<Seq<u8>>, i: int, rest: Seq<u8>)
    requires
        0 <= i < ps.len(),
        forall|k: int| 0 <= k < ps.len() ==> (#[trigger] ps[k]).len() <= u32::MAX,
    ensures
        payload_at(base + framed(ps) + rest, base.len() + framed(ps.take(i)).len()) == Some(ps[i]),
{
    let p = ps[i];
    let before = ps.take(i);
    let later = ps.skip(i + 1);
    assert(ps =~= before + (seq![p] + later));
    lemma_framed_concat(before, seq![p] + later);
    lemma_framed_concat(seq![p], later);
    lemma_framed_single(p);
    let front = base + framed(before);
    let after = framed(later) + rest;
    lemma_payload_behind(front, p, after);
    lemma_regroup(base, framed(before), frame(p), framed(later), rest);
}

/// Where one whole frame's payload stands: `start` to `end` in the bytes that
/// were walked.
#[derive(Clone, Copy, Debug)]
pub struct Span {
    pub start: usize,
    pub end: usize,
}

/// The whole frames of a run of bytes and how the run ends.
pub struct Frames {
    pub spans: Vec<Span>,
    pub tail: Tail,
}

impl Frames {
    /// `self` describes the frames of `b` from `from` on.
    pub open spec fn describe(self, b: Seq<u8>, from: int) -> bool {
        let ps = payloads(b.skip(from));
        &&& self.tail == tail(b.skip(from))
        &&& self.spans@.len() == ps.len()
        &&& forall|i: int|
            #![trigger self.spans@[i]]
            #![trigger ps[i]]
            0 <= i < ps.len() ==> {
                let s = self.spans@[i];
                &&& 4 <= s.start <= s.end <= b.len()
                &&& s.end - s.start <= u32::MAX
                &&& s.start - 4 == from + framed(ps.take(i)).len()
                &&& b.subrange(s.start as int, s.end as int) == ps[i]
            }
    }
}

/// The length that a frame's prefix gives.
pub fn read_header(b: &[u8], at: usize) -> (r: u32)
    requires
        at + 4 <= b@.len(),
    ensures
        r == header_value(b@.skip(at as int)),
{
    b[at] as u32 + 256 * (b[at + 1] as u32) + 65536 * (b[at + 2] as u32) + 16777216 * (b[at
        + 3] as u32)
}

/// Walks the frames of `b` from `from` on.
pub fn walk(b: &[u8], from: usize) -> (r: Frames)
    requires
        from <= b@.len(),
    ensures
        r.describe(b@, from as int),
{
    let mut spans: Vec<Span> = Vec::new();
    let mut at: usize = from;
    let ghost whole = b@.skip(from as int);
    let ghost ps = payloads(whole);
    let ghost mut done: Seq<Seq<u8>> = Seq::empty();
    let total: usize = b.len();
    assert(done + ps =~= ps);
    while total - at >= 4
        invariant
            total == b@.len(),
            from <= at <= total,
            whole == b@.skip(from as int),
            ps == payloads(whole),
            ps == done + payloads(b@.skip(at as int)),
            tail(whole) == tail(b@.skip(at as int)),
            spans@.len() == done.len(),
            at == from + framed(done).len(),
            forall|i: int|
                0 <= i < done.len() ==> {
                    let s = #[trigger] spans@[i];
                    &&& 4 <= s.start <= s.end <= b@.len()
                    &&& s.end - s.start <= u32::MAX
                    &&& s.start - 4 == from + framed(done.take(i)).len()
                    &&& b@.subrange(s.start as int, s.end as int) == done[i]
                },
        decreases total - at,
    {
        let n: u32 = read_header(b, at);
        let ghost rest = b@.skip(at as int);
        if (n as usize) > total - at - 4 {
            let frames = Frames { spans, tail: Tail::ShortPayload };
            assert(done =~= ps);
            return frames;
        }
        let end: usize = at + 4 + n as usize;
        let ghost p = rest.subrange(4, 4 + n);
        let ghost before = done;
        proof {
            assert(first_end(rest) == Some((4 + n) as nat));
            assert(rest.skip(4 + n) =~= b@.skip(end as int));
            assert(b@.subrange(at + 4, end as int) =~= p);
            done = done.push(p);
            assert(done + payloads(b@.skip(end as int)) =~= before + payloads(rest));
            assert(done.drop_last() =~= before);
            assert(done.take(before.len() as int) =~= before);
            assert forall|i: int| 0 <= i < before.len() implies #[trigger] done.take(i)
                == before.take(i) by {
                assert(done.take(i) =~= before.take(i));
            }
        }
        spans.push(Span { start: at + 4, end });
        at = end;
    }
    let tail = if at == total {
        Tail::Clean
    } else {
        Tail::ShortHeader
    };
    assert(done =~= ps);
    Frames { spans, tail }
}

/// The payload of the frame that starts at `at`, when the bytes hold it whole.
pub fn read_at(b: &[u8], at: u64) -> (r: Option<&[u8]>)
    ensures
        match r {
            Some(p) => payload_at(b@, at as nat) == Some(p@),
            None => payload_at(b@, at as nat) is None,
        },
{
    let total: usize = b.len();
    if at > total as u64 {
        return None;
    }
    let at: usize = at as usize;
    if total - at < 4 {
        return None;
    }
    let n: u32 = read_header(b, at);
    let ghost rest = b@.skip(at as int);
    if n as usize > total - at - 4 {
        return None;
    }
    let p = slice_subrange(b, at + 4, at + 4 + n as usize);
    assert(p@ =~= rest.subrange(4, 4 + n));
    Some(p)
}

/// Puts a payload of at most `u32::MAX` bytes behind `out`, with its length in front.
pub fn push_frame(out: &mut Vec<u8>, payload: &[u8])
    requires
        payload@.len() <= u32::MAX,
    ensures
        final(out)@ == old(out)@ + frame(payload@),
{
    let n: u32 = payload.len() as u32;
    let ghost before = out@;
    out.push((n % 256) as u8);
    out.push((n / 256 % 256) as u8);
    out.push((n / 65536 % 256) as u8);
    out.push((n / 16777216 % 256) as u8);
    assert(out@ =~= before + header(payload@.len()));
    out.extend_from_slice(payload);
    assert(out@ =~= before + frame(payload@));
}

} // verus!
