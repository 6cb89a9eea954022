//! Byte-stream state machine that finds frames in an untrusted serial
//! stream: it hunts for the magic pattern, reads the length byte, then
//! accumulates the body and emits it as one [`Frame`].
//!
//! The machine consumes one byte per call so that a caller may suspend at
//! its read between any two bytes; how the stream is chunked cannot change
//! what is emitted (see [`lemma_feed_append`]).

use vstd::prelude::*;

use crate::frame::Frame;
use crate::frame::FrameModel;
use crate::frame::frame_of_body;
use crate::frame::body_bytes;
use crate::frame::wire_bytes;
use crate::frame::lemma_frame_body_round_trip;
use crate::frame::MAGIC0;
use crate::frame::MAGIC1;
use crate::frame::HEADER_LEN;

verus! {

/// Mathematical image of the deframer: searching for sync, expecting the
/// length byte, or accumulating a body of `expected` bytes.
pub enum FramerModel {
    Sync { progress: nat },
    Len,
    Payload { expected: nat, got: Seq<u8> },
}

/// The state a fresh deframer starts in, and returns to after every frame.
pub open spec fn init_model() -> FramerModel {
    FramerModel::Sync { progress: 0 }
}

/// The magic byte awaited at synchronisation position `i`.
pub open spec fn magic_at(i: nat) -> u8 {
    if i == 0 {
        MAGIC0
    } else {
        MAGIC1
    }
}

/// One step of the deframer on one input byte: the next state, and the
/// frame emitted by this byte, if any.
///
/// A mismatch while searching resets the search outright; the mismatching
/// byte is not compared against the first magic byte again. A length byte
/// of at most `HEADER_LEN` makes the frame invalid and the search resumes.
/// (A length byte never exceeds the fixed body capacity: it counts at most
/// 255 bytes, header included.)
pub open spec fn step(m: FramerModel, byte: u8) -> (FramerModel, Option<FrameModel>) {
    match m {
        FramerModel::Sync { progress } => {
            if byte == magic_at(progress) {
                if progress + 1 == 2 {
                    (FramerModel::Len, None)
                } else {
                    (FramerModel::Sync { progress: progress + 1 }, None)
                }
            } else {
                (init_model(), None)
            }
        },
        FramerModel::Len => {
            if byte <= HEADER_LEN as u8 {
                (init_model(), None)
            } else {
                (FramerModel::Payload { expected: byte as nat, got: Seq::empty() }, None)
            }
        },
        FramerModel::Payload { expected, got } => {
            let got2 = got.push(byte);
            if got2.len() == expected {
                (init_model(), Some(frame_of_body(got2)))
            } else {
                (FramerModel::Payload { expected, got: got2 }, None)
            }
        },
    }
}

/// True when this byte completes the magic pattern.
pub open spec fn completes_sync(m: FramerModel, byte: u8) -> bool {
    &&& m matches FramerModel::Sync { progress }
    &&& progress == 1
    &&& byte == MAGIC1
}

/// The frames one step emits, as a sequence of length zero or one.
pub open spec fn emitted_seq(e: Option<FrameModel>) -> Seq<FrameModel> {
    match e {
        Some(f) => seq![f],
        None => Seq::empty(),
    }
}

/// Driving the deframer over a whole byte sequence: the final state and
/// every frame emitted along the way, in order.
pub open spec fn feed(m: FramerModel, bytes: Seq<u8>) -> (FramerModel, Seq<FrameModel>)
    decreases bytes.len(),
{
    if bytes.len() == 0 {
        (m, Seq::empty())
    } else {
        let (m1, emitted) = step(m, bytes[0]);
        let (m2, frames) = feed(m1, bytes.skip(1));
        (m2, emitted_seq(emitted) + frames)
    }
}

/// What one `push` call reports: the magic pattern was just completed, or
/// a whole frame is ready.
pub enum Resp {
    Synced,
    Frame(Frame),
}

#[derive(Clone, Copy)]
enum FramerState {
    Sync { progress: u8 },
    Len,
    Payload { expected: u8 },
}

/// The deframer itself: drive it with [`Framer::push`], one byte at a time.
pub struct Framer {
    state: FramerState,
    buf: Vec<u8>,
}

impl Framer {
    /// Structural soundness: the search position stays within the magic
    /// pattern, the body buffer fills only while a body is awaited, and an
    /// awaited body is longer than the header alone.
    pub closed spec fn wf(&self) -> bool {
        match self.state {
            FramerState::Sync { progress } => progress <= 1 && self.buf@.len() == 0,
            FramerState::Len => self.buf@.len() == 0,
            FramerState::Payload { expected } => {
                HEADER_LEN < expected && self.buf@.len() < expected
            },
        }
    }

    pub fn new() -> (r: Self)
        ensures
            r.wf(),
            r@ == init_model(),
    {
        Framer { state: FramerState::Sync { progress: 0 }, buf: Vec::new() }
    }

    /// Forget any partial match or partially filled body, as a caller must
    /// after abandoning a read mid-frame: cancellation leaves the machine
    /// where it was, and a stale partial frame would desynchronise the next
    /// exchange.
    pub fn reset(&mut self)
        ensures
            final(self).wf(),
            final(self)@ == init_model(),
    {
        self.state = FramerState::Sync { progress: 0 };
        self.buf.clear();
    }

    /// Consume one byte of the stream.
    ///
    /// The state advances exactly as [`step`] says; `Resp::Frame` carries
    /// the frame `step` emits, and `Resp::Synced` reports the completed
    /// magic pattern of a frame still to come.
    pub fn push(&mut self, byte: u8) -> (r: Option<Resp>)
        requires
            old(self).wf(),
        ensures
            final(self).wf(),
            final(self)@ == step(old(self)@, byte).0,
            (match r {
                Some(Resp::Frame(frame)) => step(old(self)@, byte).1 == Some(frame@),
                Some(Resp::Synced) => step(old(self)@, byte).1 is None && completes_sync(
                    old(self)@,
                    byte,
                ),
                None => step(old(self)@, byte).1 is None && !completes_sync(old(self)@, byte),
            }),
    {
        match self.state {
            FramerState::Sync { progress } => {
                let awaited = if progress == 0 {
                    MAGIC0
                } else {
                    MAGIC1
                };
                if byte == awaited {
                    if progress == 1 {
                        self.state = FramerState::Len;
                        Some(Resp::Synced)
                    } else {
                        self.state = FramerState::Sync { progress: 1 };
                        None
                    }
                } else {
                    self.state = FramerState::Sync { progress: 0 };
                    None
                }
            },
            FramerState::Len => {
                if byte <= 5 {
                    self.state = FramerState::Sync { progress: 0 };
                } else {
                    self.state = FramerState::Payload { expected: byte };
                    proof {
                        assert(self.buf@ =~= Seq::<u8>::empty());
                    }
                }
                None
            },
            FramerState::Payload { expected } => {
                self.buf.push(byte);
                if self.buf.len() == expected as usize {
                    let frame = take_frame(&mut self.buf);
                    self.state = FramerState::Sync { progress: 0 };
                    Some(Resp::Frame(frame))
                } else {
                    None
                }
            },
        }
    }
}

impl View for Framer {
    type V = FramerModel;

    closed spec fn view(&self) -> FramerModel {
        match self.state {
            FramerState::Sync { progress } => FramerModel::Sync { progress: progress as nat },
            FramerState::Len => FramerModel::Len,
            FramerState::Payload { expected } => FramerModel::Payload {
                expected: expected as nat,
                got: self.buf@,
            },
        }
    }
}

/// Feeding one byte equals one step: the deframer suspends between any
/// two bytes without changing what it emits.
pub proof fn lemma_feed_single(m: FramerModel, byte: u8)
    ensures
        feed(m, seq![byte]).0 == step(m, byte).0,
        feed(m, seq![byte]).1 == emitted_seq(step(m, byte).1),
{
    let s = seq![byte];
    assert(s.skip(1) =~= Seq::<u8>::empty());
    let m1 = step(m, byte).0;
    assert(feed(m1, Seq::<u8>::empty()) == (m1, Seq::<FrameModel>::empty()));
    assert(emitted_seq(step(m, byte).1) + Seq::<FrameModel>::empty() =~= emitted_seq(
        step(m, byte).1,
    ));
}

/// How the stream is chunked cannot matter: feeding a concatenation is
/// feeding the parts in turn, and the emitted frames concatenate the same
/// way.
pub proof fn lemma_feed_append(m: FramerModel, a: Seq<u8>, b: Seq<u8>)
    ensures
        feed(m, a + b).0 == feed(feed(m, a).0, b).0,
        feed(m, a + b).1 == feed(m, a).1 + feed(feed(m, a).0, b).1,
    decreases a.len(),
{
    if a.len() == 0 {
        assert(a + b =~= b);
        assert(feed(m, a).1 + feed(feed(m, a).0, b).1 =~= feed(m, b).1);
    } else {
        let (m1, e) = step(m, a[0]);
        lemma_feed_append(m1, a.skip(1), b);
        assert((a + b).skip(1) =~= a.skip(1) + b);
        assert(feed(m, a + b).1 =~= feed(m, a).1 + feed(feed(m, a).0, b).1);
    }
}

/// Resynchronisation: the magic pattern followed by a length byte of at
/// most `HEADER_LEN` announces an invalid, empty frame; nothing is
/// emitted and the deframer is searching for sync again.
pub proof fn lemma_resync(len_byte: u8)
    requires
        len_byte <= HEADER_LEN as u8,
    ensures
        feed(init_model(), seq![MAGIC0, MAGIC1, len_byte]) == (
            init_model(),
            Seq::<FrameModel>::empty(),
        ),
{
    let prefix = seq![MAGIC0, MAGIC1];
    lemma_feed_single(init_model(), MAGIC0);
    lemma_feed_append(init_model(), seq![MAGIC0], seq![MAGIC1]);
    lemma_feed_single(FramerModel::Sync { progress: 1 }, MAGIC1);
    assert(seq![MAGIC0] + seq![MAGIC1] =~= prefix);
    lemma_feed_append(init_model(), prefix, seq![len_byte]);
    lemma_feed_single(FramerModel::Len, len_byte);
    assert(prefix + seq![len_byte] =~= seq![MAGIC0, MAGIC1, len_byte]);
    assert(feed(init_model(), seq![MAGIC0, MAGIC1, len_byte]).1 =~= Seq::<FrameModel>::empty());
}

/// While a body is awaited, the bytes that complete it are taken in
/// whole, the frame they form is emitted, and the search resumes.
pub proof fn lemma_payload_fill(expected: nat, got: Seq<u8>, rest: Seq<u8>)
    requires
        HEADER_LEN < expected,
        got.len() < expected,
        got.len() + rest.len() == expected,
    ensures
        feed(FramerModel::Payload { expected, got }, rest) == (
            init_model(),
            seq![frame_of_body(got + rest)],
        ),
    decreases rest.len(),
{
    let byte = rest[0];
    let got2 = got.push(byte);
    if got2.len() == expected {
        assert(rest.skip(1) =~= Seq::<u8>::empty());
        assert(feed(init_model(), Seq::<u8>::empty()) == (
            init_model(),
            Seq::<FrameModel>::empty(),
        ));
        assert(got + rest =~= got2);
        assert(feed(FramerModel::Payload { expected, got }, rest).1 =~= seq![
            frame_of_body(got2),
        ]);
    } else {
        lemma_payload_fill(expected, got2, rest.skip(1));
        assert(got2 + rest.skip(1) =~= got + rest);
        assert(feed(FramerModel::Payload { expected, got }, rest).1 =~= seq![
            frame_of_body(got + rest),
        ]);
    }
}

/// Round trip: the wire image of a frame, fed back through the deframer
/// from its initial state, emits exactly that frame and leaves the
/// deframer initial again. Together with [`lemma_feed_append`] this holds
/// however the bytes are split into chunks. An empty payload does not
/// round-trip: its length byte equals `HEADER_LEN`, which the deframer
/// discards as invalid.
pub proof fn lemma_round_trip(f: FrameModel)
    requires
        1 <= f.payload.len(),
        f.payload.len() + HEADER_LEN <= 255,
    ensures
        feed(init_model(), wire_bytes(f)) == (init_model(), seq![f]),
{
    let len_byte = (f.payload.len() + HEADER_LEN) as u8;
    let body = body_bytes(f);
    lemma_frame_body_round_trip(f);
    let prefix = seq![MAGIC0, MAGIC1, len_byte];
    lemma_feed_single(init_model(), MAGIC0);
    lemma_feed_append(init_model(), seq![MAGIC0], seq![MAGIC1]);
    lemma_feed_single(FramerModel::Sync { progress: 1 }, MAGIC1);
    assert(seq![MAGIC0] + seq![MAGIC1] =~= seq![MAGIC0, MAGIC1]);
    lemma_feed_append(init_model(), seq![MAGIC0, MAGIC1], seq![len_byte]);
    lemma_feed_single(FramerModel::Len, len_byte);
    assert(seq![MAGIC0, MAGIC1] + seq![len_byte] =~= prefix);
    let after_len = FramerModel::Payload { expected: len_byte as nat, got: Seq::empty() };
    assert(feed(init_model(), prefix).0 == after_len);
    assert(feed(init_model(), prefix).1 =~= Seq::<FrameModel>::empty());
    lemma_payload_fill(len_byte as nat, Seq::empty(), body);
    assert(Seq::<u8>::empty() + body =~= body);
    lemma_feed_append(init_model(), prefix, body);
    assert(prefix + body =~= wire_bytes(f));
    assert(feed(init_model(), wire_bytes(f)).1 =~= seq![f]);
}

/// Whether the magic pattern occurs anywhere in these bytes.
pub open spec fn contains_magic(bytes: Seq<u8>) -> bool {
    exists|i: int| 0 <= i && i + 1 < bytes.len() && bytes[i] == MAGIC0 && #[trigger] bytes[i + 1]
        == MAGIC1
}

/// Bytes free of the magic pattern emit nothing and keep the deframer
/// searching; it has a partial match only when the last byte was the
/// first magic byte.
pub proof fn lemma_garbage_emits_nothing(gs: Seq<u8>)
    requires
        !contains_magic(gs),
    ensures
        feed(init_model(), gs).1 == Seq::<FrameModel>::empty(),
        feed(init_model(), gs).0 matches FramerModel::Sync { progress } && progress <= 1,
        feed(init_model(), gs).0 == (FramerModel::Sync { progress: 1nat }) ==> gs.len() >= 1
            && gs.last() == MAGIC0,
    decreases gs.len(),
{
    if gs.len() > 0 {
        let gs0 = gs.drop_last();
        let byte = gs.last();
        assert(!contains_magic(gs0)) by {
            if contains_magic(gs0) {
                let i = choose|i: int|
                    0 <= i && i + 1 < gs0.len() && gs0[i] == MAGIC0 && #[trigger] gs0[i + 1]
                        == MAGIC1;
                assert(gs[i] == MAGIC0 && gs[i + 1] == MAGIC1);
            }
        }
        lemma_garbage_emits_nothing(gs0);
        lemma_feed_append(init_model(), gs0, seq![byte]);
        lemma_feed_single(feed(init_model(), gs0).0, byte);
        assert(gs0 + seq![byte] =~= gs);
        if feed(init_model(), gs0).0 == (FramerModel::Sync { progress: 1nat }) {
            if byte == MAGIC1 {
                let i = gs.len() - 2;
                assert(gs0.last() == gs[i]);
                assert(0 <= i && i + 1 < gs.len() && gs[i] == MAGIC0 && gs[i + 1] == MAGIC1);
                assert(contains_magic(gs));
            }
        }
        assert(feed(init_model(), gs).1 =~= Seq::<FrameModel>::empty());
    }
}

/// Garbage resilience: a prefix free of the magic pattern, and not ending
/// on its first byte, changes nothing about what the bytes after it
/// decode to. (A prefix ending on the first magic byte can swallow a
/// following frame's sync: a mismatching byte is not re-checked.)
pub proof fn lemma_garbage_prefix(gs: Seq<u8>, rest: Seq<u8>)
    requires
        !contains_magic(gs),
        gs.len() == 0 || gs.last() != MAGIC0,
    ensures
        feed(init_model(), gs + rest) == feed(init_model(), rest),
{
    lemma_garbage_emits_nothing(gs);
    assert(feed(init_model(), gs).0 == init_model());
    lemma_feed_append(init_model(), gs, rest);
    assert(feed(init_model(), gs + rest).1 =~= feed(init_model(), rest).1);
}

/// Turns a complete body into a frame and leaves the buffer empty.
fn take_frame(body: &mut Vec<u8>) -> (r: Frame)
    requires
        old(body)@.len() >= HEADER_LEN,
    ensures
        final(body)@.len() == 0,
        r@ == frame_of_body(old(body)@),
{
    let hwid = body[0] as u16 + 256 * (body[1] as u16);
    let seq = body[2] as u16 + 256 * (body[3] as u16);
    let destination = body[4];
    let mut payload: Vec<u8> = Vec::new();
    let mut i: usize = HEADER_LEN;
    while i < body.len()
        invariant
            HEADER_LEN <= i <= body.len(),
            body@ == old(body)@,
            payload@ == body@.subrange(HEADER_LEN as int, i as int),
        decreases body.len() - i,
    {
        payload.push(body[i]);
        assert(payload@ =~= body@.subrange(HEADER_LEN as int, i + 1));
        i += 1;
    }
    assert(payload@ =~= old(body)@.skip(5));
    body.clear();
    Frame { hwid, seq, destination, payload }
}

} // verus!
