//! Reassembly of logical messages out of small CAN fragments.
//!
//! Every fragment carries a three-byte header `seq_num, reserved, seq_len`
//! and up to five payload bytes; the extended CAN identifier names the
//! source. One table entry per source accumulates payloads in order:
//! duplicates are ignored, a gap abandons the message, and the fragment
//! with `seq_num >= seq_len` completes it.

use vstd::prelude::*;

verus! {

/// A CAN identifier as the bus hands it over.
#[derive(Clone, Copy, PartialEq, Eq, Structural, Debug)]
pub enum CanId {
    Standard(u16),
    Extended(u32),
}

/// One raw CAN frame: identifier and up to eight data bytes.
pub struct CanFrame {
    pub id: CanId,
    pub data: Vec<u8>,
}

/// Why a CAN frame is no fragment at all.
#[derive(Clone, Copy, PartialEq, Eq, Structural, Debug)]
pub enum RodosCanDecodeError {
    WrongIDType,
    NoData,
}

/// Why a fragment was not accepted.
#[derive(Clone, Copy, PartialEq, Eq, Structural, Debug)]
pub enum RodosCanReceiveError {
    /// The frame does not look like a fragment.
    CouldNotDecode(RodosCanDecodeError),
    /// An earlier fragment of this message was lost; the message is abandoned.
    FrameDropped,
    /// The table already tracks as many sources as it was sized for.
    SourceBufferFull,
    /// The announced message would not fit the per-source buffer.
    MessageBufferFull,
}

/// A fully reassembled message.
#[derive(PartialEq, Eq, Debug)]
pub struct RodosCanFrame {
    topic: u16,
    device: u8,
    data: Vec<u8>,
}

/// Mathematical image of a [`RodosCanFrame`].
pub struct RodosCanFrameModel {
    pub topic: u16,
    pub device: u8,
    pub data: Seq<u8>,
}

impl View for RodosCanFrame {
    type V = RodosCanFrameModel;

    closed spec fn view(&self) -> RodosCanFrameModel {
        RodosCanFrameModel { topic: self.topic, device: self.device, data: self.data@ }
    }
}

impl RodosCanFrame {
    pub fn topic(&self) -> (r: u16)
        ensures
            r == self@.topic,
    {
        self.topic
    }

    pub fn device(&self) -> (r: u8)
        ensures
            r == self@.device,
    {
        self.device
    }

    pub fn data(&self) -> (r: &Vec<u8>)
        ensures
            r@ == self@.data,
    {
        &self.data
    }
}

/// The topic encoded in bits 8..24 of an extended identifier.
pub open spec fn topic_of(id: u32) -> u16 {
    ((id >> 8) & 0xFFFF) as u16
}

/// The sending device encoded in the low byte of an extended identifier.
pub open spec fn device_of(id: u32) -> u8 {
    (id & 0xFF) as u8
}

/// What one fragment did to the reassembler, seen abstractly.
pub enum ReasmOutcome {
    /// The fragment was rejected; the error says why.
    Rejected(RodosCanReceiveError),
    /// The fragment was consumed (accepted or ignored as a duplicate) and
    /// the message is still incomplete.
    Incomplete,
    /// The fragment completed this message.
    Complete(RodosCanFrameModel),
}

/// One step of the reassembler: from the table of partial buffers and the
/// number of tracked sources, on one CAN frame, to the next table, the next
/// count, and the outcome.
///
/// The steps are taken in order: reject frames that are no fragment, then
/// messages too long for the buffer, then new sources beyond capacity.
/// `seq_num == 0` always starts the source's message afresh. Against the
/// buffer's fill, a fragment is the awaited one (append), an old one
/// (ignore), or a witness of loss (abandon, report).
pub open spec fn reasm_step(
    table: Map<u32, Seq<u8>>,
    count: nat,
    nos: int,
    mpl: int,
    id: CanId,
    data: Seq<u8>,
) -> (Map<u32, Seq<u8>>, nat, ReasmOutcome) {
    match id {
        CanId::Extended(raw) => {
            if data.len() <= 3 {
                (
                    table,
                    count,
                    ReasmOutcome::Rejected(
                        RodosCanReceiveError::CouldNotDecode(RodosCanDecodeError::NoData),
                    ),
                )
            } else {
                let seq_num = data[0] as int;
                let seq_len = data[2] as int;
                let payload = data.skip(3);
                if seq_len * 5 > mpl {
                    (table, count, ReasmOutcome::Rejected(RodosCanReceiveError::MessageBufferFull))
                } else if !table.dom().contains(raw) && count >= nos {
                    (table, count, ReasmOutcome::Rejected(RodosCanReceiveError::SourceBufferFull))
                } else {
                    let count2 = if table.dom().contains(raw) {
                        count
                    } else {
                        count + 1
                    };
                    let prior = if table.dom().contains(raw) && seq_num != 0 {
                        table[raw]
                    } else {
                        Seq::empty()
                    };
                    let expected = prior.len() as int / 5;
                    if seq_num < expected {
                        (table, count, ReasmOutcome::Incomplete)
                    } else if seq_num == expected {
                        let grown = prior + payload;
                        if seq_num >= seq_len {
                            (
                                table.insert(raw, Seq::empty()),
                                count2,
                                ReasmOutcome::Complete(
                                    RodosCanFrameModel {
                                        topic: topic_of(raw),
                                        device: device_of(raw),
                                        data: grown,
                                    },
                                ),
                            )
                        } else {
                            (table.insert(raw, grown), count2, ReasmOutcome::Incomplete)
                        }
                    } else {
                        (
                            table.insert(raw, Seq::empty()),
                            count2,
                            ReasmOutcome::Rejected(RodosCanReceiveError::FrameDropped),
                        )
                    }
                }
            }
        },
        CanId::Standard(_) => {
            (
                table,
                count,
                ReasmOutcome::Rejected(
                    RodosCanReceiveError::CouldNotDecode(RodosCanDecodeError::WrongIDType),
                ),
            )
        },
    }
}

/// Driving the reassembler over several frames of one source, in order:
/// the final table and count, and every outcome along the way.
pub open spec fn reasm_run(
    table: Map<u32, Seq<u8>>,
    count: nat,
    nos: int,
    mpl: int,
    id: CanId,
    frames: Seq<Seq<u8>>,
) -> (Map<u32, Seq<u8>>, nat, Seq<ReasmOutcome>)
    decreases frames.len(),
{
    if frames.len() == 0 {
        (table, count, Seq::empty())
    } else {
        let (t1, c1, o) = reasm_step(table, count, nos, mpl, id, frames[0]);
        let (t2, c2, os) = reasm_run(t1, c1, nos, mpl, id, frames.skip(1));
        (t2, c2, seq![o] + os)
    }
}

/// The data bytes of the fragment numbered `k` of a message of
/// `last + 1` fragments: the three-byte fragmentation header, then the
/// fragment's payload.
pub open spec fn fragment_wire(k: int, reserved: u8, last: int, payload: Seq<u8>) -> Seq<u8> {
    seq![k as u8, reserved, last as u8] + payload
}

/// The first `k` fragment payloads, concatenated in order.
pub open spec fn concat_upto(payloads: Seq<Seq<u8>>, k: int) -> Seq<u8>
    decreases k,
{
    if k <= 0 {
        Seq::empty()
    } else {
        concat_upto(payloads, k - 1) + payloads[k - 1]
    }
}

/// The outcome a caller sees in [`RodosCanReceiver::accept`]'s result.
pub open spec fn outcome_of(
    r: Result<Option<RodosCanFrame>, RodosCanReceiveError>,
) -> ReasmOutcome {
    match r {
        Ok(Some(g)) => ReasmOutcome::Complete(g@),
        Ok(None) => ReasmOutcome::Incomplete,
        Err(e) => ReasmOutcome::Rejected(e),
    }
}

spec fn key_at(s: Seq<(u32, Vec<u8>)>, i: int) -> u32 {
    s[i].0
}

spec fn has_key(s: Seq<(u32, Vec<u8>)>, k: u32) -> bool {
    exists|i: int| 0 <= i < s.len() && key_at(s, i) == k
}

spec fn key_index(s: Seq<(u32, Vec<u8>)>, k: u32) -> int {
    choose|i: int| 0 <= i < s.len() && key_at(s, i) == k
}

spec fn keys_unique(s: Seq<(u32, Vec<u8>)>) -> bool {
    forall|i: int, j: int| 0 <= i < j < s.len() ==> key_at(s, i) != key_at(s, j)
}

spec fn table_of(s: Seq<(u32, Vec<u8>)>) -> Map<u32, Seq<u8>> {
    Map::new(|k: u32| has_key(s, k), |k: u32| s[key_index(s, k)].1@)
}

/// The per-source reassembly table: at most `NUMBER_OF_SOURCES` tracked
/// sources, each with a buffer meant for messages of up to
/// `MAX_PACKET_LENGTH` bytes.
pub struct RodosCanReceiver<const NUMBER_OF_SOURCES: usize, const MAX_PACKET_LENGTH: usize> {
    entries: Vec<(u32, Vec<u8>)>,
}

impl<const NUMBER_OF_SOURCES: usize, const MAX_PACKET_LENGTH: usize> RodosCanReceiver<
    NUMBER_OF_SOURCES,
    MAX_PACKET_LENGTH,
> {
    /// The partial buffer of every tracked source.
    pub closed spec fn table(&self) -> Map<u32, Seq<u8>> {
        table_of(self.entries@)
    }

    /// How many sources the table tracks. A source, once tracked, keeps its
    /// slot; completion only empties its buffer.
    pub closed spec fn source_count(&self) -> nat {
        self.entries@.len()
    }

    /// Each source has one entry at most, and the table stays within its
    /// fixed capacity.
    pub closed spec fn wf(&self) -> bool {
        keys_unique(self.entries@) && self.entries@.len() <= NUMBER_OF_SOURCES
    }

    pub fn new() -> (r: Self)
        ensures
            r.wf(),
            r.table() == Map::<u32, Seq<u8>>::empty(),
            r.source_count() == 0,
    {
        let r = RodosCanReceiver { entries: Vec::new() };
        proof {
            assert(r.table() =~= Map::<u32, Seq<u8>>::empty());
        }
        r
    }

    fn find(&self, key: u32) -> (r: Option<usize>)
        ensures
            match r {
                Some(i) => i < self.entries@.len() && key_at(self.entries@, i as int) == key,
                None => !has_key(self.entries@, key),
            },
    {
        let mut i: usize = 0;
        while i < self.entries.len()
            invariant
                i <= self.entries@.len(),
                forall|j: int| 0 <= j < i ==> key_at(self.entries@, j) != key,
            decreases self.entries@.len() - i,
        {
            if self.entries[i].0 == key {
                return Some(i);
            }
            i += 1;
        }
        None
    }

    /// Removes the entry of `key`, handing its buffer out, if one exists.
    fn take_entry(&mut self, key: u32) -> (r: Option<Vec<u8>>)
        requires
            old(self).wf(),
        ensures
            final(self).wf(),
            match r {
                Some(buf) => {
                    &&& old(self).table().dom().contains(key)
                    &&& buf@ == old(self).table()[key]
                    &&& final(self).table() == old(self).table().remove(key)
                    &&& !final(self).table().dom().contains(key)
                    &&& final(self).source_count() == old(self).source_count() - 1
                },
                None => {
                    &&& !old(self).table().dom().contains(key)
                    &&& *final(self) == *old(self)
                },
            },
    {
        match self.find(key) {
            Some(i) => {
                proof {
                    lemma_remove_entry(self.entries@, i as int);
                    lemma_key_index_unique(self.entries@, key);
                }
                let (_, buf) = self.entries.remove(i);
                Some(buf)
            },
            None => None,
        }
    }

    /// Adds an entry for a source not yet tracked.
    fn put_entry(&mut self, key: u32, buf: Vec<u8>)
        requires
            old(self).wf(),
            !old(self).table().dom().contains(key),
            old(self).source_count() < NUMBER_OF_SOURCES,
        ensures
            final(self).wf(),
            final(self).table() == old(self).table().insert(key, buf@),
            final(self).source_count() == old(self).source_count() + 1,
    {
        proof {
            lemma_push_entry(self.entries@, key, buf);
        }
        self.entries.push((key, buf));
    }

    /// Feed one CAN frame to the reassembler.
    ///
    /// `Ok(Some(message))` completes a message; `Ok(None)` consumes the
    /// fragment (or ignores a duplicate) with the message still open; an
    /// error rejects the fragment. Table and count move exactly as
    /// [`reasm_step`] says. The data of a classic CAN frame holds at most
    /// eight bytes.
    pub fn accept(&mut self, frame: &CanFrame) -> (r: Result<
        Option<RodosCanFrame>,
        RodosCanReceiveError,
    >)
        requires
            old(self).wf(),
            frame.data@.len() <= 8,
        ensures
            final(self).wf(),
            ({
                let (t2, c2, outcome) = reasm_step(
                    old(self).table(),
                    old(self).source_count(),
                    NUMBER_OF_SOURCES as int,
                    MAX_PACKET_LENGTH as int,
                    frame.id,
                    frame.data@,
                );
                &&& final(self).table() == t2
                &&& final(self).source_count() == c2
                &&& outcome_of(r) == outcome
            }),
    {
        let raw = match frame.id {
            CanId::Extended(x) => x,
            CanId::Standard(_) => {
                return Err(
                    RodosCanReceiveError::CouldNotDecode(RodosCanDecodeError::WrongIDType),
                );
            },
        };
        if frame.data.len() <= 3 {
            return Err(RodosCanReceiveError::CouldNotDecode(RodosCanDecodeError::NoData));
        }
        let seq_num = frame.data[0] as usize;
        let seq_len = frame.data[2] as usize;
        if seq_len * 5 > MAX_PACKET_LENGTH {
            return Err(RodosCanReceiveError::MessageBufferFull);
        }
        let ghost old_table = self.table();
        let taken = self.take_entry(raw);
        let ghost tracked_before = old_table.dom().contains(raw);
        let mut buf: Vec<u8> = match taken {
            Some(b) => b,
            None => {
                if self.entries.len() >= NUMBER_OF_SOURCES {
                    return Err(RodosCanReceiveError::SourceBufferFull);
                }
                Vec::new()
            },
        };
        if seq_num == 0 {
            buf.clear();
        }
        proof {
            assert(buf@ == (if tracked_before && seq_num != 0 {
                old_table[raw]
            } else {
                Seq::<u8>::empty()
            }));
        }
        let ghost prior = buf@;
        let expected = buf.len() / 5;
        if seq_num < expected {
            // An already-accepted fragment came again: keep waiting.
            self.put_entry(raw, buf);
            proof {
                assert(self.table() =~= old_table);
            }
            Ok(None)
        } else if seq_num == expected {
            proof {
                assert(prior + frame.data@.subrange(3, 3) =~= prior);
            }
            let mut j: usize = 3;
            while j < frame.data.len()
                invariant
                    3 <= j <= frame.data@.len(),
                    buf@ == prior + frame.data@.subrange(3, j as int),
                decreases frame.data@.len() - j,
            {
                buf.push(frame.data[j]);
                proof {
                    assert(buf@ =~= prior + frame.data@.subrange(3, j + 1));
                }
                j += 1;
            }
            proof {
                assert(frame.data@.subrange(3, frame.data@.len() as int) =~= frame.data@.skip(3));
            }
            if seq_num >= seq_len {
                let message = RodosCanFrame {
                    topic: decode_topic(raw),
                    device: decode_device(raw),
                    data: buf,
                };
                self.put_entry(raw, Vec::new());
                proof {
                    assert(self.table() =~= old_table.insert(raw, Seq::<u8>::empty()));
                }
                Ok(Some(message))
            } else {
                self.put_entry(raw, buf);
                proof {
                    assert(self.table() =~= old_table.insert(raw, prior + frame.data@.skip(3)));
                }
                Ok(None)
            }
        } else {
            // An earlier fragment was lost: abandon the message.
            self.put_entry(raw, Vec::new());
            proof {
                assert(self.table() =~= old_table.insert(raw, Seq::<u8>::empty()));
            }
            Err(RodosCanReceiveError::FrameDropped)
        }
    }
}

/// Bits 8..24 of the identifier, as the wire lays the topic down.
fn decode_topic(raw: u32) -> (r: u16)
    ensures
        r == topic_of(raw),
{
    proof {
        assert(((raw >> 8) & 0xFFFF) <= 0xFFFF) by (bit_vector);
    }
    ((raw >> 8) & 0xFFFF) as u16
}

/// The low identifier byte, naming the sending device.
fn decode_device(raw: u32) -> (r: u8)
    ensures
        r == device_of(raw),
{
    proof {
        assert((raw & 0xFF) <= 0xFF) by (bit_vector);
    }
    (raw & 0xFF) as u8
}

proof fn lemma_key_index_unique(s: Seq<(u32, Vec<u8>)>, k: u32)
    requires
        keys_unique(s),
        has_key(s, k),
    ensures
        0 <= key_index(s, k) < s.len(),
        key_at(s, key_index(s, k)) == k,
        forall|j: int| 0 <= j < s.len() && key_at(s, j) == k ==> j == key_index(s, k),
{
    let i = choose|i: int| 0 <= i < s.len() && key_at(s, i) == k;
    assert(0 <= i < s.len() && key_at(s, i) == k);
}

proof fn lemma_remove_entry(s: Seq<(u32, Vec<u8>)>, i: int)
    requires
        keys_unique(s),
        0 <= i < s.len(),
    ensures
        keys_unique(s.remove(i)),
        !has_key(s.remove(i), key_at(s, i)),
        table_of(s.remove(i)) == table_of(s).remove(key_at(s, i)),
{
    let s2 = s.remove(i);
    let k = key_at(s, i);
    assert forall|a: int, b: int| 0 <= a < b < s2.len() implies key_at(s2, a) != key_at(
        s2,
        b,
    ) by {
        let a0 = if a < i {
            a
        } else {
            a + 1
        };
        let b0 = if b < i {
            b
        } else {
            b + 1
        };
        assert(key_at(s2, a) == key_at(s, a0));
        assert(key_at(s2, b) == key_at(s, b0));
    }
    assert forall|j: int| 0 <= j < s2.len() implies key_at(s2, j) != k by {
        let j0 = if j < i {
            j
        } else {
            j + 1
        };
        assert(key_at(s2, j) == key_at(s, j0));
    }
    assert forall|k2: u32| #[trigger] has_key(s2, k2) implies has_key(s, k2) && k2 != k by {
        let j = choose|j: int| 0 <= j < s2.len() && key_at(s2, j) == k2;
        let j0 = if j < i {
            j
        } else {
            j + 1
        };
        assert(key_at(s, j0) == k2);
    }
    assert forall|k2: u32| has_key(s, k2) && k2 != k implies #[trigger] has_key(s2, k2) by {
        let j0 = choose|j: int| 0 <= j < s.len() && key_at(s, j) == k2;
        if j0 < i {
            assert(key_at(s2, j0) == k2);
        } else {
            assert(key_at(s2, j0 - 1) == key_at(s, j0));
        }
    }
    assert forall|k2: u32| #[trigger] has_key(s2, k2) implies s2[key_index(s2, k2)].1@
        == s[key_index(s, k2)].1@ by {
        lemma_key_index_unique(s2, k2);
        lemma_key_index_unique(s, k2);
        let j = key_index(s2, k2);
        let j0 = if j < i {
            j
        } else {
            j + 1
        };
        assert(key_at(s, j0) == k2);
        assert(j0 == key_index(s, k2));
        assert(s2[j] == s[j0]);
    }
    assert(table_of(s2) =~= table_of(s).remove(k));
}

proof fn lemma_push_entry(s: Seq<(u32, Vec<u8>)>, k: u32, v: Vec<u8>)
    requires
        keys_unique(s),
        !has_key(s, k),
    ensures
        keys_unique(s.push((k, v))),
        table_of(s.push((k, v))) == table_of(s).insert(k, v@),
{
    let s2 = s.push((k, v));
    assert forall|a: int, b: int| 0 <= a < b < s2.len() implies key_at(s2, a) != key_at(
        s2,
        b,
    ) by {
        if b < s.len() {
            assert(key_at(s2, a) == key_at(s, a));
            assert(key_at(s2, b) == key_at(s, b));
        } else {
            assert(key_at(s2, b) == k);
            assert(key_at(s2, a) == key_at(s, a));
        }
    }
    assert(key_at(s2, s.len() as int) == k);
    assert forall|k2: u32| #[trigger] has_key(s2, k2) implies (k2 == k || has_key(s, k2)) by {
        let j = choose|j: int| 0 <= j < s2.len() && key_at(s2, j) == k2;
        if j < s.len() {
            assert(key_at(s, j) == k2);
        }
    }
    assert forall|k2: u32| has_key(s, k2) implies #[trigger] has_key(s2, k2) by {
        let j = choose|j: int| 0 <= j < s.len() && key_at(s, j) == k2;
        assert(key_at(s2, j) == k2);
    }
    assert forall|k2: u32| #[trigger] has_key(s2, k2) && k2 != k implies s2[key_index(s2, k2)].1@
        == s[key_index(s, k2)].1@ by {
        lemma_key_index_unique(s2, k2);
        lemma_key_index_unique(s, k2);
        let j = key_index(s2, k2);
        assert(j < s.len());
        assert(key_at(s, j) == k2);
        assert(s2[j] == s[j]);
    }
    lemma_key_index_unique(s2, k);
    assert(s2[key_index(s2, k)].1@ == v@);
    assert(table_of(s2) =~= table_of(s).insert(k, v@));
}

/// Duplicate tolerance: redelivering an already-accepted fragment — one
/// whose number is at least one and below the next awaited one — is no
/// error and changes nothing, whatever bytes it carries. (A redelivered
/// fragment number zero is not covered: number zero always starts the
/// message afresh.)
pub proof fn lemma_duplicate_ignored(
    table: Map<u32, Seq<u8>>,
    count: nat,
    nos: int,
    mpl: int,
    raw: u32,
    data: Seq<u8>,
)
    requires
        table.dom().contains(raw),
        data.len() > 3,
        (data[2] as int) * 5 <= mpl,
        1 <= data[0],
        (data[0] as int) < table[raw].len() as int / 5,
    ensures
        reasm_step(table, count, nos, mpl, CanId::Extended(raw), data) == (
            table,
            count,
            ReasmOutcome::Incomplete,
        ),
{
}

/// Source exhaustion: a fragment of a source not yet tracked, arriving
/// while the table is full, is rejected `SourceBufferFull`; no tracked
/// source is evicted and nothing changes.
pub proof fn lemma_source_exhaustion(
    table: Map<u32, Seq<u8>>,
    count: nat,
    nos: int,
    mpl: int,
    raw: u32,
    data: Seq<u8>,
)
    requires
        !table.dom().contains(raw),
        count >= nos,
        data.len() > 3,
        (data[2] as int) * 5 <= mpl,
    ensures
        reasm_step(table, count, nos, mpl, CanId::Extended(raw), data) == (
            table,
            count,
            ReasmOutcome::Rejected(RodosCanReceiveError::SourceBufferFull),
        ),
{
}

/// Gap detection: a fragment beyond the next awaited one proves an
/// earlier fragment was lost — the buffer is cleared and `FrameDropped`
/// reported — and a following fragment number zero starts a fresh
/// assembly holding exactly its payload.
pub proof fn lemma_gap_detection(
    table: Map<u32, Seq<u8>>,
    count: nat,
    nos: int,
    mpl: int,
    raw: u32,
    gap: Seq<u8>,
    restart: Seq<u8>,
)
    requires
        table.dom().contains(raw),
        gap.len() > 3,
        (gap[2] as int) * 5 <= mpl,
        (gap[0] as int) > table[raw].len() as int / 5,
        restart.len() > 3,
        (restart[2] as int) * 5 <= mpl,
        restart[0] == 0,
        restart[2] >= 1,
    ensures
        ({
            let (t1, c1, o1) = reasm_step(table, count, nos, mpl, CanId::Extended(raw), gap);
            let (t2, c2, o2) = reasm_step(t1, c1, nos, mpl, CanId::Extended(raw), restart);
            &&& o1 == ReasmOutcome::Rejected(RodosCanReceiveError::FrameDropped)
            &&& t1 == table.insert(raw, Seq::<u8>::empty())
            &&& c1 == count
            &&& o2 == ReasmOutcome::Incomplete
            &&& t2 == t1.insert(raw, restart.skip(3))
            &&& c2 == count
        }),
{
    let t1 = reasm_step(table, count, nos, mpl, CanId::Extended(raw), gap).0;
    assert(t1.dom().contains(raw));
    assert(t1[raw].len() == 0);
    assert(Seq::<u8>::empty() + restart.skip(3) =~= restart.skip(3));
}

proof fn lemma_concat_upto_len(payloads: Seq<Seq<u8>>, k: int)
    requires
        0 <= k < payloads.len(),
        forall|j: int| 0 <= j < payloads.len() - 1 ==> (#[trigger] payloads[j]).len() == 5,
    ensures
        concat_upto(payloads, k).len() == 5 * k,
    decreases k,
{
    if k > 0 {
        lemma_concat_upto_len(payloads, k - 1);
    }
}

/// The fragments numbered `k` and beyond of the message, as they stand on
/// the wire.
pub open spec fn remaining_fragments(
    payloads: Seq<Seq<u8>>,
    reserved: Seq<u8>,
    k: int,
) -> Seq<Seq<u8>> {
    Seq::new(
        (payloads.len() - k) as nat,
        |j: int| fragment_wire(k + j, reserved[k + j], payloads.len() - 1, payloads[k + j]),
    )
}

proof fn lemma_reassemble_from(
    table: Map<u32, Seq<u8>>,
    count: nat,
    nos: int,
    mpl: int,
    raw: u32,
    payloads: Seq<Seq<u8>>,
    reserved: Seq<u8>,
    k: int,
)
    requires
        payloads.len() >= 1,
        payloads.len() - 1 <= 255,
        (payloads.len() - 1) * 5 <= mpl,
        forall|j: int| 0 <= j < payloads.len() - 1 ==> (#[trigger] payloads[j]).len() == 5,
        1 <= payloads.last().len() <= 5,
        reserved.len() == payloads.len(),
        1 <= k <= payloads.len() - 1,
        table.dom().contains(raw),
        table[raw] == concat_upto(payloads, k),
    ensures
        ({
            let (t2, c2, os) = reasm_run(
                table,
                count,
                nos,
                mpl,
                CanId::Extended(raw),
                remaining_fragments(payloads, reserved, k),
            );
            &&& t2 == table.insert(raw, Seq::<u8>::empty())
            &&& c2 == count
            &&& os.len() == payloads.len() - k
            &&& (forall|j: int| 0 <= j < os.len() - 1 ==> os[j] == ReasmOutcome::Incomplete)
            &&& os.last() == ReasmOutcome::Complete(
                RodosCanFrameModel {
                    topic: topic_of(raw),
                    device: device_of(raw),
                    data: concat_upto(payloads, payloads.len() as int),
                },
            )
        }),
    decreases payloads.len() - k,
{
    let last = payloads.len() - 1;
    let frames = remaining_fragments(payloads, reserved, k);
    let fw = fragment_wire(k, reserved[k], last, payloads[k]);
    assert(frames[0] == fw);
    assert(fw[0] == k as u8);
    assert(fw[2] == last as u8);
    assert(fw.skip(3) =~= payloads[k]);
    assert(fw.len() > 3);
    lemma_concat_upto_len(payloads, k);
    assert((5 * k) / 5 == k) by (nonlinear_arith);
    let step_r = reasm_step(table, count, nos, mpl, CanId::Extended(raw), fw);
    assert(table[raw] + payloads[k] == concat_upto(payloads, k + 1));
    if k == last {
        assert(step_r.2 == ReasmOutcome::Complete(
            RodosCanFrameModel {
                topic: topic_of(raw),
                device: device_of(raw),
                data: concat_upto(payloads, payloads.len() as int),
            },
        ));
        assert(frames.skip(1) =~= Seq::<Seq<u8>>::empty());
        assert(reasm_run(step_r.0, step_r.1, nos, mpl, CanId::Extended(raw), Seq::empty()) == (
            step_r.0,
            step_r.1,
            Seq::<ReasmOutcome>::empty(),
        ));
        assert(seq![step_r.2] + Seq::<ReasmOutcome>::empty() =~= seq![step_r.2]);
    } else {
        assert(step_r.2 == ReasmOutcome::Incomplete);
        let t1 = table.insert(raw, concat_upto(payloads, k + 1));
        assert(step_r.0 == t1);
        lemma_reassemble_from(t1, count, nos, mpl, raw, payloads, reserved, k + 1);
        assert(frames.skip(1) =~= remaining_fragments(payloads, reserved, k + 1));
        assert(t1.insert(raw, Seq::<u8>::empty()) =~= table.insert(raw, Seq::<u8>::empty()));
        let rest = reasm_run(
            t1,
            count,
            nos,
            mpl,
            CanId::Extended(raw),
            remaining_fragments(payloads, reserved, k + 1),
        );
        let os = seq![step_r.2] + rest.2;
        assert(os.last() == rest.2.last());
        assert forall|j: int| 0 <= j < os.len() - 1 implies os[j] == ReasmOutcome::Incomplete by {
            if j > 0 {
                assert(os[j] == rest.2[j - 1]);
            }
        }
    }
}

/// In-order reassembly: the fragments of a message, numbered zero through
/// `seq_len` and delivered in order, reassemble to the exact
/// concatenation of their payload bytes, each earlier fragment reporting
/// the message incomplete. The source may already be tracked (fragment
/// zero starts its message afresh) or new while the table has room.
pub proof fn lemma_in_order_reassembly(
    table: Map<u32, Seq<u8>>,
    count: nat,
    nos: int,
    mpl: int,
    raw: u32,
    payloads: Seq<Seq<u8>>,
    reserved: Seq<u8>,
)
    requires
        payloads.len() >= 1,
        payloads.len() - 1 <= 255,
        (payloads.len() - 1) * 5 <= mpl,
        forall|j: int| 0 <= j < payloads.len() - 1 ==> (#[trigger] payloads[j]).len() == 5,
        1 <= payloads.last().len() <= 5,
        reserved.len() == payloads.len(),
        table.dom().contains(raw) || count < nos,
    ensures
        ({
            let (t2, c2, os) = reasm_run(
                table,
                count,
                nos,
                mpl,
                CanId::Extended(raw),
                remaining_fragments(payloads, reserved, 0),
            );
            &&& t2 == table.insert(raw, Seq::<u8>::empty())
            &&& c2 == (if table.dom().contains(raw) {
                count
            } else {
                count + 1
            })
            &&& os.len() == payloads.len()
            &&& (forall|j: int| 0 <= j < os.len() - 1 ==> os[j] == ReasmOutcome::Incomplete)
            &&& os.last() == ReasmOutcome::Complete(
                RodosCanFrameModel {
                    topic: topic_of(raw),
                    device: device_of(raw),
                    data: concat_upto(payloads, payloads.len() as int),
                },
            )
        }),
{
    let last = payloads.len() - 1;
    let frames = remaining_fragments(payloads, reserved, 0);
    let fw = fragment_wire(0, reserved[0], last, payloads[0]);
    assert(frames[0] == fw);
    assert(fw[0] == 0);
    assert(fw[2] == last as u8);
    assert(fw.skip(3) =~= payloads[0]);
    assert(fw.len() > 3);
    let count2: nat = if table.dom().contains(raw) {
        count
    } else {
        count + 1
    };
    let step_r = reasm_step(table, count, nos, mpl, CanId::Extended(raw), fw);
    assert(Seq::<u8>::empty() + payloads[0] =~= payloads[0]);
    assert(concat_upto(payloads, 1) == concat_upto(payloads, 0) + payloads[0]);
    assert(Seq::<u8>::empty() + payloads[0] == concat_upto(payloads, 1));
    if last == 0 {
        assert(step_r.2 == ReasmOutcome::Complete(
            RodosCanFrameModel {
                topic: topic_of(raw),
                device: device_of(raw),
                data: concat_upto(payloads, payloads.len() as int),
            },
        ));
        assert(frames.skip(1) =~= Seq::<Seq<u8>>::empty());
        assert(reasm_run(step_r.0, step_r.1, nos, mpl, CanId::Extended(raw), Seq::empty()) == (
            step_r.0,
            step_r.1,
            Seq::<ReasmOutcome>::empty(),
        ));
        assert(seq![step_r.2] + Seq::<ReasmOutcome>::empty() =~= seq![step_r.2]);
    } else {
        assert(step_r.2 == ReasmOutcome::Incomplete);
        let t1 = table.insert(raw, concat_upto(payloads, 1));
        assert(step_r.0 == t1);
        assert(step_r.1 == count2);
        lemma_reassemble_from(t1, count2, nos, mpl, raw, payloads, reserved, 1);
        assert(frames.skip(1) =~= remaining_fragments(payloads, reserved, 1));
        assert(t1.insert(raw, Seq::<u8>::empty()) =~= table.insert(raw, Seq::<u8>::empty()));
        let rest = reasm_run(
            t1,
            count2,
            nos,
            mpl,
            CanId::Extended(raw),
            remaining_fragments(payloads, reserved, 1),
        );
        let os = seq![step_r.2] + rest.2;
        assert(os.last() == rest.2.last());
        assert forall|j: int| 0 <= j < os.len() - 1 implies os[j] == ReasmOutcome::Incomplete by {
            if j > 0 {
                assert(os[j] == rest.2[j - 1]);
            }
        }
    }
}

} // verus!
