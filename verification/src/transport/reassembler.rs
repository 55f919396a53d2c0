//! The reliability core: turns an unordered, lossy, duplicated packet stream
//! back into the exact in-order frame sequence.
//!
//! A second copy of a seq is ignored, frames that come early are buffered,
//! gaps are known from buffered frames and from heartbeats, and a late joiner
//! starts from any seq and fills in the history. Feed packets in, pop frames
//! out, and where [`Reassembler::gap`] reports a missing range, fetch it from
//! the retransmitter and feed that in too.

use vstd::prelude::*;

use crate::frame::{Frame, Record};
use crate::journal::records;
use crate::seq::SeqNo;
use crate::transport::packet::{Packet, PacketModel};
use crate::transport::TransportError;

verus! {

/// Bound on buffered out-of-order frames. Past this, the farthest-ahead
/// frames are dropped; they are fetched again once the stream advances.
pub const PENDING_CAP: usize = 65536;

/// What a receiver knows of a stream.
#[verifier::ext_equal]
pub struct StreamModel {
    /// The session locked onto.
    pub session: Option<u64>,
    /// The seq that is delivered next.
    pub next: u64,
    /// Frames that wait, in seq order.
    pub pending: Seq<Record>,
    /// Everything below this is known to exist.
    pub announced: u64,
    /// How many packets came in.
    pub packets: u64,
}

/// Frames in strict seq order.
pub open spec fn in_order(frames: Seq<Record>) -> bool {
    forall|i: int, j: int| 0 <= i < j < frames.len() ==> frames[i].seq < frames[j].seq
}

/// Whether a frame with this seq is among the frames.
pub open spec fn has_seq(frames: Seq<Record>, seq: u64) -> bool {
    exists|i: int| 0 <= i < frames.len() && (#[trigger] frames[i]).seq == seq
}

/// Frames in seq order with `f` put in its place; a frame with the same seq
/// stays.
pub open spec fn inserted(frames: Seq<Record>, f: Record) -> Seq<Record>
    decreases frames.len(),
{
    if frames.len() == 0 || frames.last().seq < f.seq {
        frames.push(f)
    } else if frames.last().seq == f.seq {
        frames
    } else {
        inserted(frames.drop_last(), f).push(frames.last())
    }
}

pub open spec fn max_of(a: u64, b: u64) -> u64 {
    if a > b {
        a
    } else {
        b
    }
}

/// The seq behind `seq`, or the last one.
pub open spec fn behind(seq: u64) -> u64 {
    if seq < u64::MAX {
        (seq + 1) as u64
    } else {
        seq
    }
}

impl StreamModel {
    /// With one frame taken in.
    pub open spec fn taking(self, f: Record) -> StreamModel {
        StreamModel {
            announced: max_of(self.announced, behind(f.seq)),
            pending: if f.seq < self.next {
                self.pending
            } else {
                inserted(self.pending, f)
            },
            ..self
        }
    }

    /// With frames taken in, one after the other.
    pub open spec fn taking_all(self, frames: Seq<Record>) -> StreamModel
        decreases frames.len(),
    {
        if frames.len() == 0 {
            self
        } else {
            self.taking_all(frames.drop_last()).taking(frames.last())
        }
    }

    /// With the farthest-ahead frames dropped where too many wait.
    pub open spec fn bounded(self) -> StreamModel {
        if self.pending.len() > PENDING_CAP {
            StreamModel { pending: self.pending.take(PENDING_CAP as int), ..self }
        } else {
            self
        }
    }

    /// Whether a packet of this session is welcome.
    pub open spec fn welcomes(self, session: u64) -> bool {
        self.session is None || self.session == Some(session)
    }

    /// With a packet of the stream taken in.
    pub open spec fn ingested(self, p: PacketModel) -> StreamModel {
        let m = StreamModel {
            session: Some(p.session()),
            packets: behind(self.packets),
            ..self
        };
        match p {
            PacketModel::Heartbeat { next_seq, .. } => StreamModel {
                announced: max_of(m.announced, next_seq),
                ..m
            },
            PacketModel::Data { frames, .. } => m.taking_all(frames).bounded(),
        }
    }

    /// Whether a frame is ready to be delivered.
    pub open spec fn deliverable(self) -> bool {
        &&& self.pending.len() > 0
        &&& self.pending[0].seq == self.next
        &&& self.next < u64::MAX
    }

    /// With the next frame delivered.
    pub open spec fn delivered(self) -> StreamModel {
        StreamModel { next: (self.next + 1) as u64, pending: self.pending.skip(1), ..self }
    }

    /// The first seq behind the known gap.
    pub open spec fn gap_end(self) -> u64 {
        if self.pending.len() > 0 {
            self.pending[0].seq
        } else {
            self.announced
        }
    }

    /// Well-formed: the frames that wait are in order, not yet delivered and
    /// known to exist, as are those that were delivered.
    pub open spec fn wf(self) -> bool {
        &&& self.waits_in_order()
        &&& self.pending.len() <= PENDING_CAP
        &&& 1 <= self.next <= self.announced
    }

    /// The same, however many frames wait.
    pub open spec fn waits_in_order(self) -> bool {
        &&& in_order(self.pending)
        &&& forall|i: int|
            0 <= i < self.pending.len() ==> (#[trigger] self.pending[i]).seq >= self.next
                && behind(self.pending[i].seq) <= self.announced
    }

    /// All frames that wait are frames of `stream`.
    pub open spec fn agrees(self, stream: Map<u64, Record>) -> bool {
        all_from(self.pending, stream)
    }
}

/// Every frame is the one that `stream` has at its seq.
pub open spec fn all_from(frames: Seq<Record>, stream: Map<u64, Record>) -> bool {
    forall|i: int|
        0 <= i < frames.len() ==> stream.contains_key((#[trigger] frames[i]).seq)
            && stream[frames[i].seq] == frames[i]
}

/// What putting a frame in its place does.
proof fn lemma_inserted(frames: Seq<Record>, f: Record)
    requires
        in_order(frames),
    ensures
        in_order(inserted(frames, f)),
        has_seq(inserted(frames, f), f.seq),
        forall|seq: u64| #[trigger]
            has_seq(inserted(frames, f), seq) ==> has_seq(frames, seq) || seq == f.seq,
        forall|seq: u64| #[trigger] has_seq(frames, seq) ==> has_seq(inserted(frames, f), seq),
        forall|i: int|
            0 <= i < inserted(frames, f).len() ==> frames.contains(#[trigger] inserted(frames, f)[i])
                || inserted(frames, f)[i] == f,
        frames.len() <= inserted(frames, f).len() <= frames.len() + 1,
        has_seq(frames, f.seq) ==> inserted(frames, f) == frames,
    decreases frames.len(),
{
    let out = inserted(frames, f);
    if frames.len() == 0 || frames.last().seq < f.seq {
        assert(out[frames.len() as int] == f);
        assert forall|seq: u64| #[trigger] has_seq(frames, seq) implies has_seq(out, seq) by {
            let i = choose|i: int| 0 <= i < frames.len() && (#[trigger] frames[i]).seq == seq;
            assert(out[i].seq == seq);
        }
        assert forall|i: int| 0 <= i < out.len() implies frames.contains(#[trigger] out[i])
            || out[i] == f by {
            if i < frames.len() {
                assert(out[i] == frames[i]);
            }
        }
        assert forall|seq: u64| #[trigger] has_seq(out, seq) implies has_seq(frames, seq) || seq
            == f.seq by {
            let i = choose|i: int| 0 <= i < out.len() && (#[trigger] out[i]).seq == seq;
            if i < frames.len() {
                assert(frames[i].seq == seq);
            }
        }
        if has_seq(frames, f.seq) {
            let i = choose|i: int| 0 <= i < frames.len() && (#[trigger] frames[i]).seq == f.seq;
            assert(frames[i].seq <= frames[frames.len() - 1].seq);
        }
    } else if frames.last().seq == f.seq {
        assert(out[frames.len() - 1].seq == f.seq);
    } else {
        let front = frames.drop_last();
        let last = frames.last();
        assert(in_order(front)) by {
            assert forall|i: int, j: int| 0 <= i < j < front.len() implies front[i].seq
                < front[j].seq by {
                assert(frames[i].seq < frames[j].seq);
            }
        }
        lemma_inserted(front, f);
        let inner = inserted(front, f);
        assert forall|i: int| 0 <= i < inner.len() implies (#[trigger] inner[i]).seq
            < last.seq by {
            if front.contains(inner[i]) {
                let j = choose|j: int| 0 <= j < front.len() && front[j] == inner[i];
                assert(frames[j].seq < frames[frames.len() - 1].seq);
            }
        }
        assert forall|seq: u64| #[trigger] has_seq(out, seq) implies has_seq(frames, seq) || seq
            == f.seq by {
            let i = choose|i: int| 0 <= i < out.len() && (#[trigger] out[i]).seq == seq;
            if i < inner.len() {
                assert(inner[i].seq == seq);
                assert(has_seq(inner, seq));
                if has_seq(front, seq) {
                    let j = choose|j: int| 0 <= j < front.len() && (#[trigger] front[j]).seq == seq;
                    assert(frames[j].seq == seq);
                }
            } else {
                assert(frames[frames.len() - 1].seq == seq);
            }
        }
        assert forall|seq: u64| #[trigger] has_seq(frames, seq) implies has_seq(out, seq) by {
            let i = choose|i: int| 0 <= i < frames.len() && (#[trigger] frames[i]).seq == seq;
            if i < front.len() {
                assert(front[i].seq == seq);
                assert(has_seq(front, seq));
                assert(has_seq(inner, seq));
                let j = choose|j: int| 0 <= j < inner.len() && (#[trigger] inner[j]).seq == seq;
                assert(out[j].seq == seq);
            } else {
                assert(out[inner.len() as int].seq == seq);
            }
        }
        let k = choose|k: int| 0 <= k < inner.len() && (#[trigger] inner[k]).seq == f.seq;
        assert(out[k].seq == f.seq);
        assert forall|i: int| 0 <= i < out.len() implies frames.contains(#[trigger] out[i])
            || out[i] == f by {
            if i < inner.len() {
                assert(out[i] == inner[i]);
                if front.contains(inner[i]) {
                    let j = choose|j: int| 0 <= j < front.len() && front[j] == inner[i];
                    assert(frames[j] == out[i]);
                }
            } else {
                assert(frames[frames.len() - 1] == out[i]);
            }
        }
        if has_seq(frames, f.seq) {
            let i = choose|i: int| 0 <= i < frames.len() && (#[trigger] frames[i]).seq == f.seq;
            assert(front[i].seq == f.seq);
            assert(has_seq(front, f.seq));
            assert(front.push(last) =~= frames);
        }
    }
}

/// A frame of the stream taken in keeps what waits in order, undelivered and
/// of the stream.
proof fn lemma_taking(m: StreamModel, f: Record, stream: Map<u64, Record>)
    requires
        m.waits_in_order(),
    ensures
        ({
            let now = m.taking(f);
            &&& now.waits_in_order()
            &&& m.agrees(stream) && stream.contains_key(f.seq) && stream[f.seq] == f
                ==> now.agrees(stream)
            &&& forall|seq: u64| #[trigger]
                has_seq(m.pending, seq) ==> has_seq(now.pending, seq)
            &&& f.seq >= m.next ==> has_seq(now.pending, f.seq)
            &&& now.pending.len() <= m.pending.len() + 1
        }),
{
    lemma_inserted(m.pending, f);
    let now = m.taking(f);
    assert forall|i: int| 0 <= i < now.pending.len() implies (#[trigger] now.pending[i]).seq
        >= now.next && behind(now.pending[i].seq) <= now.announced by {
        if m.pending.contains(now.pending[i]) {
            let j = choose|j: int| 0 <= j < m.pending.len() && m.pending[j] == now.pending[i];
            assert(m.pending[j].seq >= m.next);
        }
    }
    if m.agrees(stream) && stream.contains_key(f.seq) && stream[f.seq] == f {
        assert forall|i: int| 0 <= i < now.pending.len() implies stream.contains_key(
            (#[trigger] now.pending[i]).seq,
        ) && stream[now.pending[i].seq] == now.pending[i] by {
            if m.pending.contains(now.pending[i]) {
                let j = choose|j: int| 0 <= j < m.pending.len() && m.pending[j] == now.pending[i];
                assert(stream[m.pending[j].seq] == m.pending[j]);
            }
        }
    }
}

proof fn lemma_taking_all(m: StreamModel, frames: Seq<Record>, stream: Map<u64, Record>)
    requires
        m.waits_in_order(),
    ensures
        ({
            let now = m.taking_all(frames);
            &&& now.next == m.next
            &&& now.session == m.session
            &&& now.packets == m.packets
            &&& now.announced >= m.announced
            &&& now.waits_in_order()
            &&& m.agrees(stream) && all_from(frames, stream) ==> now.agrees(stream)
            &&& forall|i: int|
                0 <= i < frames.len() && (#[trigger] frames[i]).seq >= m.next ==> has_seq(
                    now.pending,
                    frames[i].seq,
                )
            &&& forall|i: int|
                0 <= i < frames.len() ==> now.announced >= behind((#[trigger] frames[i]).seq)
            &&& now.pending.len() <= m.pending.len() + frames.len()
        }),
    decreases frames.len(),
{
    if frames.len() > 0 {
        let front = frames.drop_last();
        let f = frames.last();
        lemma_taking_all(m, front, stream);
        let mid = m.taking_all(front);
        lemma_taking(mid, f, stream);
        let now = m.taking_all(frames);
        if m.agrees(stream) && all_from(frames, stream) {
            assert(all_from(front, stream)) by {
                assert forall|i: int| 0 <= i < front.len() implies stream.contains_key(
                    (#[trigger] front[i]).seq,
                ) && stream[front[i].seq] == front[i] by {
                    assert(front[i] == frames[i]);
                }
            }
            assert(stream[frames[frames.len() - 1].seq] == f);
        }
        assert forall|i: int|
            0 <= i < frames.len() && (#[trigger] frames[i]).seq >= m.next implies has_seq(
            now.pending,
            frames[i].seq,
        ) by {
            if i < front.len() {
                assert(front[i] == frames[i]);
                assert(has_seq(mid.pending, front[i].seq));
            }
        }
        assert forall|i: int| 0 <= i < frames.len() implies now.announced >= behind(
            (#[trigger] frames[i]).seq,
        ) by {
            if i < front.len() {
                assert(front[i] == frames[i]);
            }
        }
    }
}

proof fn lemma_taking_all_session(m: StreamModel, frames: Seq<Record>)
    ensures
        m.taking_all(frames).session == m.session,
    decreases frames.len(),
{
    if frames.len() > 0 {
        lemma_taking_all_session(m, frames.drop_last());
    }
}

/// A packet that is taken in locks the session.
pub proof fn law_first_packet_locks_the_session(m: StreamModel, p: PacketModel)
    ensures
        m.ingested(p).session == Some(p.session()),
        forall|other: u64| #[trigger]
            m.ingested(p).welcomes(other) <==> other == p.session(),
{
    if let PacketModel::Data { session, frames } = p {
        lemma_taking_all_session(
            StreamModel { session: Some(session), packets: behind(m.packets), ..m },
            frames,
        );
    }
}

/// Taking in frames that are all there, or delivered, already changes nothing.
proof fn lemma_retaking(m: StreamModel, frames: Seq<Record>)
    requires
        in_order(m.pending),
        forall|i: int|
            0 <= i < frames.len() ==> m.announced >= behind((#[trigger] frames[i]).seq) && (
            frames[i].seq < m.next || has_seq(m.pending, frames[i].seq)),
    ensures
        m.taking_all(frames) == m,
    decreases frames.len(),
{
    if frames.len() > 0 {
        let front = frames.drop_last();
        let f = frames[frames.len() - 1];
        assert forall|i: int| 0 <= i < front.len() implies m.announced >= behind(
            (#[trigger] front[i]).seq,
        ) && (front[i].seq < m.next || has_seq(m.pending, front[i].seq)) by {
            assert(front[i] == frames[i]);
        }
        lemma_retaking(m, front);
        lemma_inserted(m.pending, f);
    }
}

/// A frame that is among the first `k`, or behind them, leaves them alone.
proof fn lemma_inserted_far(frames: Seq<Record>, f: Record, k: nat)
    requires
        in_order(frames),
        0 < k <= frames.len(),
        f.seq > frames[k - 1].seq || has_seq(frames.take(k as int), f.seq),
    ensures
        inserted(frames, f).len() >= k,
        inserted(frames, f).take(k as int) == frames.take(k as int),
    decreases frames.len(),
{
    let out = inserted(frames, f);
    let first = frames.take(k as int);
    if frames.last().seq < f.seq {
        assert(out.take(k as int) =~= first);
    } else if frames.last().seq > f.seq {
        if k == frames.len() {
            assert(first =~= frames);
            lemma_inserted(frames, f);
        } else {
            let front = frames.drop_last();
            assert(front.take(k as int) =~= first);
            assert forall|i: int, j: int| 0 <= i < j < front.len() implies front[i].seq
                < front[j].seq by {
                assert(frames[i].seq < frames[j].seq);
            }
            lemma_inserted_far(front, f, k);
            let inner = inserted(front, f);
            assert forall|i: int| 0 <= i < k implies out[i] == first[i] by {
                assert(inner.take(k as int)[i] == first[i]);
            }
            assert(out.take(k as int) =~= first);
        }
    }
}

/// Taking in frames that are there, delivered, or behind the first `k` leaves
/// those alone.
proof fn lemma_retaking_far(m: StreamModel, frames: Seq<Record>, k: nat)
    requires
        m.waits_in_order(),
        0 < k <= m.pending.len(),
        forall|i: int|
            0 <= i < frames.len() ==> m.announced >= behind((#[trigger] frames[i]).seq) && (
            frames[i].seq < m.next || frames[i].seq > m.pending[k - 1].seq || has_seq(
                m.pending.take(k as int),
                frames[i].seq,
            )),
    ensures
        ({
            let now = m.taking_all(frames);
            &&& now == (StreamModel { pending: now.pending, ..m })
            &&& now.pending.len() >= k
            &&& now.pending.take(k as int) == m.pending.take(k as int)
        }),
    decreases frames.len(),
{
    if frames.len() > 0 {
        let front = frames.drop_last();
        let f = frames[frames.len() - 1];
        assert forall|i: int| 0 <= i < front.len() implies m.announced >= behind(
            (#[trigger] front[i]).seq,
        ) && (front[i].seq < m.next || front[i].seq > m.pending[k - 1].seq || has_seq(
            m.pending.take(k as int),
            front[i].seq,
        )) by {
            assert(front[i] == frames[i]);
        }
        lemma_retaking_far(m, front, k);
        lemma_taking_all(m, front, Map::empty());
        let mid = m.taking_all(front);
        assert(mid.pending[k - 1] == mid.pending.take(k as int)[k - 1]);
        assert(m.pending[k - 1] == m.pending.take(k as int)[k - 1]);
        if f.seq >= m.next {
            lemma_inserted_far(mid.pending, f, k);
        }
    }
}

/// A second copy of a packet, from the other feed or a retransmission, adds
/// nothing.
pub proof fn law_duplicate_packet_adds_nothing(m: StreamModel, p: PacketModel)
    requires
        m.wf(),
    ensures
        m.ingested(p).ingested(p) == (StreamModel {
            packets: behind(m.ingested(p).packets),
            ..m.ingested(p)
        }),
{
    if let PacketModel::Data { session, frames } = p {
        let start = StreamModel { session: Some(session), packets: behind(m.packets), ..m };
        lemma_taking_all(start, frames, Map::empty());
        let full = start.taking_all(frames);
        let once = m.ingested(p);
        let again = StreamModel { packets: behind(once.packets), ..once };
        if full.pending.len() <= PENDING_CAP {
            lemma_retaking(again, frames);
        } else {
            let k = PENDING_CAP as nat;
            assert forall|i: int, j: int| 0 <= i < j < again.pending.len() implies again.pending[i].seq
                < again.pending[j].seq by {
                assert(full.pending[i].seq < full.pending[j].seq);
            }
            assert forall|i: int| 0 <= i < again.pending.len() implies (
            #[trigger] again.pending[i]).seq >= again.next && behind(again.pending[i].seq)
                <= again.announced by {
                assert(again.pending[i] == full.pending[i]);
            }
            assert(again.pending.take(k as int) =~= again.pending);
            assert forall|i: int| 0 <= i < frames.len() implies again.announced >= behind(
                (#[trigger] frames[i]).seq,
            ) && (frames[i].seq < again.next || frames[i].seq > again.pending[k - 1].seq
                || has_seq(again.pending.take(k as int), frames[i].seq)) by {
                if frames[i].seq >= m.next {
                    assert(has_seq(full.pending, frames[i].seq));
                    let j = choose|j: int|
                        0 <= j < full.pending.len() && (#[trigger] full.pending[j]).seq
                            == frames[i].seq;
                    if j < k {
                        assert(again.pending[j].seq == frames[i].seq);
                    } else {
                        assert(full.pending[k - 1].seq < full.pending[j].seq);
                    }
                }
            }
            lemma_retaking_far(again, frames, k);
        }
    }
}

/// A packet of frames that were all delivered already is counted, and changes
/// nothing else.
pub proof fn law_late_packet_changes_nothing(m: StreamModel, session: u64, frames: Seq<Record>)
    requires
        m.wf(),
        m.session == Some(session),
        forall|i: int| 0 <= i < frames.len() ==> (#[trigger] frames[i]).seq < m.next,
    ensures
        m.ingested(PacketModel::Data { session, frames }) == (StreamModel {
            packets: behind(m.packets),
            ..m
        }),
{
    let start = StreamModel { packets: behind(m.packets), ..m };
    lemma_retaking(start, frames);
}

/// Whatever mix of packets of one stream comes in, in any order, only frames
/// of that stream ever wait; and the frame delivered next is the stream's
/// frame at that seq.
pub proof fn law_only_the_stream_is_delivered(
    m: StreamModel,
    p: PacketModel,
    stream: Map<u64, Record>,
)
    requires
        m.wf(),
        m.agrees(stream),
        p matches PacketModel::Data { frames, .. } ==> all_from(frames, stream),
    ensures
        m.ingested(p).wf(),
        m.ingested(p).agrees(stream),
        m.ingested(p).next == m.next,
        m.deliverable() ==> stream.contains_key(m.next) && m.pending[0] == stream[m.next]
            && m.delivered().wf() && m.delivered().agrees(stream),
{
    if let PacketModel::Data { session, frames } = p {
        let start = StreamModel { session: Some(session), packets: behind(m.packets), ..m };
        lemma_taking_all(start, frames, stream);
        let all = start.taking_all(frames);
        let now = all.bounded();
        assert forall|i: int| 0 <= i < now.pending.len() implies now.pending[i]
            == all.pending[i] by {}
        assert forall|i: int| 0 <= i < now.pending.len() implies stream.contains_key(
            (#[trigger] now.pending[i]).seq,
        ) && stream[now.pending[i].seq] == now.pending[i] by {
            assert(now.pending[i] == all.pending[i]);
        }
        assert forall|i: int| 0 <= i < now.pending.len() implies (#[trigger] now.pending[i]).seq
            >= now.next && behind(now.pending[i].seq) <= now.announced by {
            assert(now.pending[i] == all.pending[i]);
        }
    }
    if m.deliverable() {
        lemma_delivered(m, stream);
    }
}

/// What happens to a stream: a packet of it comes in, or its next frame is
/// taken out.
pub enum Event {
    Came(PacketModel),
    Took,
}

/// What was delivered over a run of events, in order, and how the stream
/// stands behind it.
pub open spec fn delivered_over(m: StreamModel, events: Seq<Event>) -> (Seq<Record>, StreamModel)
    decreases events.len(),
{
    if events.len() == 0 {
        (Seq::empty(), m)
    } else {
        let (out, now) = delivered_over(m, events.drop_last());
        match events.last() {
            Event::Came(p) => (out, if now.welcomes(p.session()) {
                now.ingested(p)
            } else {
                now
            }),
            Event::Took => if now.deliverable() {
                (out.push(now.pending[0]), now.delivered())
            } else {
                (out, now)
            },
        }
    }
}

/// Whatever packets of one stream come in, in whatever order and however
/// often, what is delivered is that stream from the first expected seq on,
/// frame by frame: none is missing, repeated or out of order.
pub proof fn law_stream_is_reassembled(
    m: StreamModel,
    events: Seq<Event>,
    stream: Map<u64, Record>,
)
    requires
        m.wf(),
        m.agrees(stream),
        forall|i: int|
            0 <= i < events.len() ==> (#[trigger] events[i] matches Event::Came(
                PacketModel::Data { frames, .. },
            ) ==> all_from(frames, stream)),
    ensures
        ({
            let (out, now) = delivered_over(m, events);
            &&& now.wf()
            &&& now.agrees(stream)
            &&& now.next == m.next + out.len()
            &&& all_from(out, stream)
            &&& forall|i: int| 0 <= i < out.len() ==> (#[trigger] out[i]).seq == m.next + i
        }),
    decreases events.len(),
{
    if events.len() > 0 {
        let front = events.drop_last();
        assert forall|i: int| 0 <= i < front.len() implies (#[trigger] front[i] matches Event::Came(
            PacketModel::Data { frames, .. },
        ) ==> all_from(frames, stream)) by {
            assert(front[i] == events[i]);
        }
        law_stream_is_reassembled(m, front, stream);
        let (out, now) = delivered_over(m, front);
        assert(events[events.len() - 1] == events.last());
        match events.last() {
            Event::Came(p) => {
                law_only_the_stream_is_delivered(now, p, stream);
            },
            Event::Took => {
                let quiet = PacketModel::Heartbeat { session: 0, next_seq: 0 };
                law_only_the_stream_is_delivered(now, quiet, stream);
            },
        }
        let (more, end) = delivered_over(m, events);
        assert(end.next == m.next + more.len());
        assert forall|i: int| 0 <= i < more.len() implies (#[trigger] more[i]).seq == m.next + i
            && stream.contains_key(more[i].seq) && stream[more[i].seq] == more[i] by {
            if i < out.len() {
                assert(more[i] == out[i]);
            } else {
                assert(more[i] == now.pending[0]);
            }
        }
    }
}

/// The frames that a stream had or heard over a run of events, in the order in
/// which they came.
pub open spec fn heard_over(m: StreamModel, events: Seq<Event>) -> Seq<Record>
    decreases events.len(),
{
    if events.len() == 0 {
        m.pending
    } else {
        let before = heard_over(m, events.drop_last());
        let now = delivered_over(m, events.drop_last()).1;
        match events.last() {
            Event::Came(PacketModel::Data { session, frames }) => if now.welcomes(session) {
                before + frames
            } else {
                before
            },
            _ => before,
        }
    }
}

/// No packet of the run brings more frames than can wait.
pub open spec fn never_full(m: StreamModel, events: Seq<Event>) -> bool
    decreases events.len(),
{
    events.len() > 0 ==> {
        let now = delivered_over(m, events.drop_last()).1;
        &&& never_full(m, events.drop_last())
        &&& events.last() matches Event::Came(PacketModel::Data { frames, .. })
            ==> now.taking_all(frames).pending.len() <= PENDING_CAP
    }
}

/// The frame is the first with its seq.
pub open spec fn is_first_copy(heard: Seq<Record>, f: Record) -> bool {
    exists|k: int|
        0 <= k < heard.len() && #[trigger] heard[k] == f && forall|j: int|
            0 <= j < k ==> (#[trigger] heard[j]).seq != f.seq
}

/// What waits is the first copy of its seq, and of what was heard everything
/// waits that was not delivered.
#[verifier::opaque]
spec fn holds_first_copies(m: StreamModel, heard: Seq<Record>) -> bool {
    &&& m.waits_in_order()
    &&& forall|i: int|
        0 <= i < m.pending.len() ==> is_first_copy(heard, #[trigger] m.pending[i])
    &&& forall|k: int|
        0 <= k < heard.len() ==> (#[trigger] heard[k]).seq < m.next || has_seq(
            m.pending,
            heard[k].seq,
        )
}

proof fn lemma_first_copy_stays(heard: Seq<Record>, more: Seq<Record>, f: Record)
    requires
        is_first_copy(heard, f),
    ensures
        is_first_copy(heard + more, f),
{
    let k = choose|k: int|
        0 <= k < heard.len() && #[trigger] heard[k] == f && forall|j: int|
            0 <= j < k ==> (#[trigger] heard[j]).seq != f.seq;
    let all = heard + more;
    assert(all[k] == f);
    assert forall|j: int| 0 <= j < k implies (#[trigger] all[j]).seq != f.seq by {
        assert(all[j] == heard[j]);
    }
}

proof fn lemma_take_first_copies(m: StreamModel, heard: Seq<Record>, frames: Seq<Record>)
    requires
        holds_first_copies(m, heard),
    ensures
        holds_first_copies(m.taking_all(frames), heard + frames),
        m.taking_all(frames).next == m.next,
    decreases frames.len(),
{
    reveal(holds_first_copies);
    if frames.len() == 0 {
        assert(heard + frames =~= heard);
    } else {
        let front = frames.drop_last();
        let f = frames.last();
        let before = heard + front;
        let all = heard + frames;
        lemma_take_first_copies(m, heard, front);
        let mid = m.taking_all(front);
        let now = m.taking_all(frames);
        assert(all =~= before.push(f));
        assert(all =~= before + seq![f]);
        lemma_inserted(mid.pending, f);
        assert forall|i: int| 0 <= i < now.pending.len() implies is_first_copy(
            all,
            #[trigger] now.pending[i],
        ) && now.pending[i].seq >= now.next && behind(now.pending[i].seq) <= now.announced by {
            let x = now.pending[i];
            if mid.pending.contains(x) {
                let j = choose|j: int| 0 <= j < mid.pending.len() && mid.pending[j] == x;
                assert(is_first_copy(before, mid.pending[j]));
                lemma_first_copy_stays(before, seq![f], x);
            } else {
                assert(x == f);
                if has_seq(mid.pending, f.seq) {
                    assert(now.pending == mid.pending);
                    assert(mid.pending.contains(mid.pending[i]));
                }
                assert(all[before.len() as int] == f);
                assert forall|j: int| 0 <= j < before.len() implies (#[trigger] all[j]).seq
                    != f.seq by {
                    assert(all[j] == before[j]);
                }
            }
        }
        assert forall|k: int| 0 <= k < all.len() implies (#[trigger] all[k]).seq < now.next
            || has_seq(now.pending, all[k].seq) by {
            if k < before.len() {
                assert(all[k] == before[k]);
            }
        }
    }
}

/// However often a frame comes in, and whatever later copies say, what is
/// delivered at a seq is the first copy of it, as long as no more frames wait
/// than can.
pub proof fn law_first_copy_is_delivered(m: StreamModel, events: Seq<Event>)
    requires
        m.wf(),
        never_full(m, events),
    ensures
        ({
            let (out, now) = delivered_over(m, events);
            forall|i: int|
                0 <= i < out.len() ==> is_first_copy(heard_over(m, events), #[trigger] out[i])
        }),
{
    lemma_first_copies_over(m, events);
}

proof fn lemma_first_copies_over(m: StreamModel, events: Seq<Event>)
    requires
        m.wf(),
        never_full(m, events),
    ensures
        ({
            let (out, now) = delivered_over(m, events);
            &&& holds_first_copies(now, heard_over(m, events))
            &&& forall|i: int|
                0 <= i < out.len() ==> is_first_copy(heard_over(m, events), #[trigger] out[i])
        }),
    decreases events.len(),
{
    let heard = heard_over(m, events);
    if events.len() == 0 {
        reveal(holds_first_copies);
        assert forall|i: int| 0 <= i < m.pending.len() implies is_first_copy(
            heard,
            #[trigger] m.pending[i],
        ) by {
            assert(heard[i] == m.pending[i]);
            assert forall|j: int| 0 <= j < i implies (#[trigger] heard[j]).seq
                != m.pending[i].seq by {
                assert(m.pending[j].seq < m.pending[i].seq);
            }
        }
    } else {
        let front = events.drop_last();
        lemma_first_copies_over(m, front);
        let (out, now) = delivered_over(m, front);
        let before = heard_over(m, front);
        let (more, end) = delivered_over(m, events);
        match events.last() {
            Event::Came(p) => {
                if now.welcomes(p.session()) {
                    if let PacketModel::Data { session, frames } = p {
                        let start = StreamModel {
                            session: Some(session),
                            packets: behind(now.packets),
                            ..now
                        };
                        reveal(holds_first_copies);
                        lemma_same_taking(now, start, frames);
                        lemma_take_first_copies(start, before, frames);
                        assert(end == start.taking_all(frames));
                        assert forall|i: int| 0 <= i < more.len() implies is_first_copy(
                            heard,
                            #[trigger] more[i],
                        ) by {
                            lemma_first_copy_stays(before, frames, out[i]);
                        }
                    } else {
                        reveal(holds_first_copies);
                    }
                }
            },
            Event::Took => {
                if now.deliverable() {
                    lemma_deliver_first_copies(now, heard);
                    assert forall|i: int| 0 <= i < more.len() implies is_first_copy(
                        heard,
                        #[trigger] more[i],
                    ) by {
                        if i < out.len() {
                            assert(more[i] == out[i]);
                        } else {
                            assert(more[i] == now.pending[0]);
                        }
                    }
                }
            },
        }
    }
}

proof fn lemma_deliver_first_copies(m: StreamModel, heard: Seq<Record>)
    requires
        holds_first_copies(m, heard),
        m.deliverable(),
    ensures
        is_first_copy(heard, m.pending[0]),
        holds_first_copies(m.delivered(), heard),
{
    reveal(holds_first_copies);
    let end = m.delivered();
    assert forall|i: int| 0 <= i < end.pending.len() implies is_first_copy(
        heard,
        #[trigger] end.pending[i],
    ) && end.pending[i].seq >= end.next && behind(end.pending[i].seq) <= end.announced by {
        assert(end.pending[i] == m.pending[i + 1]);
        assert(m.pending[0].seq < m.pending[i + 1].seq);
    }
    assert forall|i: int, j: int| 0 <= i < j < end.pending.len() implies end.pending[i].seq
        < end.pending[j].seq by {
        assert(m.pending[i + 1].seq < m.pending[j + 1].seq);
    }
    assert forall|k: int| 0 <= k < heard.len() implies (#[trigger] heard[k]).seq < end.next
        || has_seq(end.pending, heard[k].seq) by {
        if heard[k].seq >= end.next {
            let j = choose|j: int|
                0 <= j < m.pending.len() && (#[trigger] m.pending[j]).seq == heard[k].seq;
            assert(end.pending[j - 1].seq == heard[k].seq);
        }
    }
}

/// What taking frames in does is no matter of the session or the count.
proof fn lemma_same_taking(a: StreamModel, b: StreamModel, frames: Seq<Record>)
    requires
        a.pending == b.pending,
        a.next == b.next,
        a.announced == b.announced,
    ensures
        a.taking_all(frames).pending == b.taking_all(frames).pending,
        a.taking_all(frames).next == b.taking_all(frames).next,
        a.taking_all(frames).announced == b.taking_all(frames).announced,
    decreases frames.len(),
{
    if frames.len() > 0 {
        lemma_same_taking(a, b, frames.drop_last());
    }
}

proof fn lemma_delivered(m: StreamModel, stream: Map<u64, Record>)
    requires
        m.wf(),
        m.deliverable(),
    ensures
        m.delivered().wf(),
        m.agrees(stream) ==> m.delivered().agrees(stream),
{
    let now = m.delivered();
    assert forall|i: int| 0 <= i < now.pending.len() implies (#[trigger] now.pending[i]).seq
        >= now.next && behind(now.pending[i].seq) <= now.announced by {
        assert(now.pending[i] == m.pending[i + 1]);
        assert(m.pending[0].seq < m.pending[i + 1].seq);
    }
    assert(behind(m.pending[0].seq) <= m.announced);
    assert forall|i: int, j: int| 0 <= i < j < now.pending.len() implies now.pending[i].seq
        < now.pending[j].seq by {
        assert(m.pending[i + 1].seq < m.pending[j + 1].seq);
    }
    if m.agrees(stream) {
        assert forall|i: int| 0 <= i < now.pending.len() implies stream.contains_key(
            (#[trigger] now.pending[i]).seq,
        ) && stream[now.pending[i].seq] == now.pending[i] by {
            assert(now.pending[i] == m.pending[i + 1]);
        }
    }
}

/// Where no gap is known, nothing that is known to exist is missing: the next
/// frame is there, or everything announced was delivered.
pub proof fn law_no_gap_means_caught_up(m: StreamModel)
    requires
        m.wf(),
        m.gap_end() <= m.next,
        m.next < u64::MAX,
    ensures
        m.deliverable() || (m.pending.len() == 0 && m.announced == m.next),
{
    if m.pending.len() > 0 {
        assert(m.pending[0].seq >= m.next);
    }
}

/// The frames of a known gap are not waiting, and filling the gap from its
/// start makes the next frame deliverable.
pub proof fn law_filling_the_gap_delivers(m: StreamModel, session: u64, frames: Seq<Record>)
    requires
        m.wf(),
        m.gap_end() > m.next,
        frames.len() > 0,
        frames[0].seq == m.next,
        m.pending.len() + frames.len() <= PENDING_CAP,
    ensures
        !has_seq(m.pending, m.next),
        m.ingested(PacketModel::Data { session, frames }).deliverable(),
{
    if has_seq(m.pending, m.next) {
        let i = choose|i: int| 0 <= i < m.pending.len() && (#[trigger] m.pending[i]).seq == m.next;
        if i > 0 {
            assert(m.pending[0].seq < m.pending[i].seq);
        }
    }
    let start = StreamModel { session: Some(session), packets: behind(m.packets), ..m };
    lemma_taking_all(start, frames, Map::empty());
    let now = start.taking_all(frames);
    assert(frames[0].seq >= m.next);
    assert(has_seq(now.pending, frames[0].seq));
    let k = choose|k: int| 0 <= k < now.pending.len() && (#[trigger] now.pending[k]).seq == m.next;
    if k > 0 {
        assert(now.pending[0].seq < now.pending[k].seq);
        assert(now.pending[0].seq >= now.next);
    }
}

pub struct Reassembler {
    session: Option<u64>,
    next: u64,
    pending: Vec<Frame>,
    announced: u64,
    packets: u64,
}

impl View for Reassembler {
    type V = StreamModel;

    closed spec fn view(&self) -> StreamModel {
        StreamModel {
            session: self.session,
            next: self.next,
            pending: records(self.pending@),
            announced: self.announced,
            packets: self.packets,
        }
    }
}

/// Puts a frame in its place.
fn insert_frame(pending: &mut Vec<Frame>, frame: Frame)
    requires
        in_order(records(old(pending)@)),
    ensures
        records(final(pending)@) == inserted(records(old(pending)@), frame@),
{
    let ghost before = records(pending@);
    let seq: u64 = frame.seq.0;
    let mut i: usize = pending.len();
    assert(before.take(i as int) =~= before);
    assert(before.skip(i as int) =~= Seq::empty());
    assert(inserted(before, frame@) =~= inserted(before.take(i as int), frame@) + before.skip(
        i as int,
    ));
    while i > 0 && pending[i - 1].seq.0 > seq
        invariant
            i <= pending@.len() == before.len(),
            before == records(pending@),
            in_order(before),
            seq == frame@.seq,
            inserted(before, frame@) == inserted(before.take(i as int), frame@) + before.skip(
                i as int,
            ),
        decreases i,
    {
        proof {
            let front = before.take(i as int);
            assert(front.last() == pending@[i - 1]@);
            assert(front.drop_last() =~= before.take(i - 1));
            assert(inserted(front.drop_last(), frame@).push(front.last()) + before.skip(i as int)
                =~= inserted(front.drop_last(), frame@) + before.skip(i - 1));
        }
        i = i - 1;
    }
    let ghost front = before.take(i as int);
    if i > 0 && pending[i - 1].seq.0 == seq {
        proof {
            assert(front.last() == pending@[i - 1]@);
            assert(front + before.skip(i as int) =~= before);
        }
        return ;
    }
    proof {
        if i > 0 {
            assert(front.last() == pending@[i - 1]@);
        }
        assert(inserted(front, frame@) =~= front.push(frame@));
    }
    let ghost f = frame@;
    pending.insert(i, frame);
    assert(records(pending@) =~= front.push(f) + before.skip(i as int));
}

impl Reassembler {
    #[verifier::type_invariant]
    spec fn inv(&self) -> bool {
        self@.wf()
    }

    /// Starts expecting `from` as the first delivered seq (1 follows a stream
    /// from genesis; anything later is a warm join).
    pub fn new(from: SeqNo) -> (r: Self)
        ensures
            r@ == (StreamModel {
                session: None,
                next: max_of(from.0, 1),
                pending: Seq::empty(),
                announced: max_of(from.0, 1),
                packets: 0,
            }),
            r@.wf(),
    {
        let start: u64 = if from.0 > 1 {
            from.0
        } else {
            1
        };
        let pending: Vec<Frame> = Vec::new();
        assert(records(pending@) =~= Seq::<Record>::empty());
        Reassembler { session: None, next: start, pending, announced: start, packets: 0 }
    }

    /// The session this stream locked onto, once known.
    pub fn session(&self) -> (r: Option<u64>)
        ensures
            r == self@.session,
    {
        self.session
    }

    /// The next seq that will be delivered.
    pub fn next_expected(&self) -> (r: SeqNo)
        ensures
            r.0 == self@.next,
    {
        SeqNo(self.next)
    }

    /// The highest seq known to exist upstream.
    pub fn announced_high_water(&self) -> (r: SeqNo)
        ensures
            r.0 == if self@.announced > 0 {
                self@.announced - 1
            } else {
                0
            },
    {
        SeqNo(self.announced.saturating_sub(1))
    }

    /// How many packets came in, heartbeats among them.
    pub fn packets_seen(&self) -> (r: u64)
        ensures
            r == self@.packets,
    {
        self.packets
    }

    /// Takes in one packet (from either feed channel, or a retransmit reply).
    pub fn ingest(&mut self, packet: Packet) -> (r: Result<(), TransportError>)
        ensures
            old(self)@.wf(),
            final(self)@.wf(),
            match r {
                Ok(_) => old(self)@.welcomes(packet@.session()) && final(self)@ == old(
                    self,
                )@.ingested(packet@),
                Err(e) => !old(self)@.welcomes(packet@.session()) && final(self)@ == old(self)@
                    && e == (TransportError::SessionMismatch {
                    expected: old(self)@.session->0,
                    got: packet@.session(),
                }),
            },
    {
        proof {
            use_type_invariant(&*self);
        }
        let ghost before = self@;
        let session: u64 = packet.session();
        if let Some(expected) = self.session {
            if expected != session {
                return Err(TransportError::SessionMismatch { expected, got: session });
            }
        }
        let ghost start = StreamModel {
            session: Some(session),
            packets: behind(before.packets),
            ..before
        };
        self.session = Some(session);
        self.packets = self.packets.saturating_add(1);
        assert(self@ == start);
        match packet {
            Packet::Heartbeat { next_seq, .. } => {
                if next_seq.0 > self.announced {
                    self.announced = next_seq.0;
                }
            },
            Packet::Data { frames, .. } => {
                let ghost all = records(frames@);
                let mut frames = frames;
                let mut pending: Vec<Frame> = Vec::new();
                let next: u64 = self.next;
                let mut announced: u64 = self.announced;
                std::mem::swap(&mut pending, &mut self.pending);
                let n: usize = frames.len();
                let mut i: usize = 0;
                assert(all.take(0) =~= Seq::<Record>::empty());
                while i < n
                    invariant
                        i <= n == all.len(),
                        frames@.len() == n - i,
                        records(frames@) == all.skip(i as int),
                        start.wf(),
                        start.next == next,
                        (StreamModel { pending: records(pending@), announced, ..start })
                            == start.taking_all(all.take(i as int)),
                    decreases n - i,
                {
                    proof {
                        lemma_taking_all(start, all.take(i as int), Map::empty());
                        assert(all.take(i + 1).drop_last() =~= all.take(i as int));
                        assert(all.take(i + 1).last() == all[i as int]);
                        assert(records(frames@)[0] == all[i as int]);
                    }
                    let ghost was = frames@;
                    let frame = frames.remove(0);
                    assert(frame@ == all[i as int]);
                    proof {
                        assert forall|k: int| 0 <= k < frames@.len() implies records(frames@)[k]
                            == all.skip(i + 1)[k] by {
                            assert(frames@[k] == was[k + 1]);
                            assert(records(was)[k + 1] == all.skip(i as int)[k + 1]);
                        }
                        assert(records(frames@) =~= all.skip(i + 1));
                    }
                    let seq: u64 = frame.seq.0;
                    let after: u64 = seq.saturating_add(1);
                    if after > announced {
                        announced = after;
                    }
                    if seq >= next {
                        insert_frame(&mut pending, frame);
                    }
                    i = i + 1;
                }
                proof {
                    assert(all.take(n as int) =~= all);
                    lemma_taking_all(start, all, Map::empty());
                }
                let ghost full = start.taking_all(all);
                if pending.len() > PENDING_CAP {
                    pending.truncate(PENDING_CAP);
                    assert(records(pending@) =~= full.pending.take(PENDING_CAP as int));
                }
                assert(records(pending@) == full.bounded().pending);
                assert forall|k: int, j: int|
                    0 <= k < j < full.bounded().pending.len() implies full.bounded().pending[k].seq
                    < full.bounded().pending[j].seq by {
                    assert(full.pending[k].seq < full.pending[j].seq);
                }
                assert forall|k: int| 0 <= k < full.bounded().pending.len() implies (
                #[trigger] full.bounded().pending[k]).seq >= next && behind(
                    full.bounded().pending[k].seq,
                ) <= announced by {
                    assert(full.bounded().pending[k] == full.pending[k]);
                }
                assert(full.bounded().wf());
                self.announced = announced;
                self.pending = pending;
            },
        }
        Ok(())
    }

    /// Pops the next in-order frame, if it has arrived.
    pub fn next_frame(&mut self) -> (r: Option<Frame>)
        ensures
            old(self)@.wf(),
            final(self)@.wf(),
            match r {
                Some(frame) => old(self)@.deliverable() && frame@ == old(self)@.pending[0]
                    && frame@.seq == old(self)@.next && final(self)@ == old(self)@.delivered(),
                None => !old(self)@.deliverable() && final(self)@ == old(self)@,
            },
    {
        proof {
            use_type_invariant(&*self);
        }
        let ghost before = self@;
        if self.pending.len() == 0 {
            return None;
        }
        assert(before.pending[0] == self.pending@[0]@);
        if self.next == u64::MAX || self.pending[0].seq.0 != self.next {
            return None;
        }
        proof {
            lemma_delivered(before, Map::empty());
        }
        let mut pending: Vec<Frame> = Vec::new();
        std::mem::swap(&mut pending, &mut self.pending);
        let frame = pending.remove(0);
        assert(records(pending@) =~= before.pending.skip(1));
        self.next = self.next + 1;
        self.pending = pending;
        Some(frame)
    }

    /// The currently known missing range: frames that are proven to exist
    /// (something after them arrived, or a heartbeat announced past them) but
    /// were not received. `None` where the stream is intact so far.
    pub fn gap(&self) -> (r: Option<(SeqNo, u64)>)
        ensures
            match r {
                Some((from, count)) => self@.gap_end() > self@.next && from.0 == self@.next
                    && count == self@.gap_end() - self@.next,
                None => self@.gap_end() <= self@.next,
            },
    {
        let until: u64 = if self.pending.len() > 0 {
            assert(self@.pending[0] == self.pending@[0]@);
            self.pending[0].seq.0
        } else {
            self.announced
        };
        if until > self.next {
            Some((SeqNo(self.next), until - self.next))
        } else {
            None
        }
    }
}

/// What is known to exist only grows: behind a packet everything that it carries
/// or announces is known, each packet counts once, and nothing that was delivered
/// is expected again.
pub proof fn law_announcements_only_grow(m: StreamModel, p: PacketModel, i: int)
    ensures
        m.announced <= m.ingested(p).announced,
        m.ingested(p).next == m.next,
        m.packets < u64::MAX ==> m.ingested(p).packets == m.packets + 1,
        p matches PacketModel::Heartbeat { next_seq, .. } ==> {
            &&& next_seq <= m.ingested(p).announced
            &&& m.ingested(p).announced == m.announced || m.ingested(p).announced == next_seq
            &&& m.ingested(p).pending == m.pending
        },
        p matches PacketModel::Data { frames, .. } ==> (0 <= i < frames.len() && frames[i].seq
            < u64::MAX ==> frames[i].seq + 1 <= m.ingested(p).announced),
{
    if let PacketModel::Data { session, frames } = p {
        let start = StreamModel { session: Some(session), packets: behind(m.packets), ..m };
        lemma_taking_announces(start, frames, i);
    }
}

proof fn lemma_taking_announces(m: StreamModel, frames: Seq<Record>, i: int)
    ensures
        m.announced <= m.taking_all(frames).announced,
        m.taking_all(frames).next == m.next,
        m.taking_all(frames).packets == m.packets,
        0 <= i < frames.len() && frames[i].seq < u64::MAX ==> frames[i].seq + 1 <= m.taking_all(
            frames,
        ).announced,
    decreases frames.len(),
{
    if frames.len() > 0 {
        lemma_taking_announces(m, frames.drop_last(), i);
        if 0 <= i < frames.len() - 1 {
            assert(frames.drop_last()[i] == frames[i]);
        }
    }
}

/// A delivery hands out the frame that waits at the expected seq, expects the
/// next one and lets the others wait; the known gap begins at what is expected
/// and ends at the first frame that waits or at what was announced.
pub proof fn law_delivery_takes_the_expected_frame(m: StreamModel, i: int)
    requires
        m.wf(),
    ensures
        m.deliverable() ==> {
            &&& m.pending[0].seq == m.next
            &&& m.delivered().next == m.next + 1
            &&& m.delivered().pending.len() == m.pending.len() - 1
            &&& 0 <= i < m.delivered().pending.len() ==> m.delivered().pending[i]
                == m.pending[i + 1]
            &&& m.delivered().announced == m.announced
            &&& m.delivered().session == m.session
        },
        m.pending.len() > 0 && m.pending[0].seq == m.next && m.next < u64::MAX
            ==> m.deliverable(),
        m.pending.len() > 0 ==> m.gap_end() == m.pending[0].seq,
        m.pending.len() == 0 ==> m.gap_end() == m.announced,
        m.session is None ==> forall|session: u64| #[trigger] m.welcomes(session),
{
}

/// Where more frames wait than may, the farthest ahead are dropped: those that
/// stay are the nearest, in order.
pub proof fn law_nearest_frames_stay(m: StreamModel, i: int)
    ensures
        m.bounded().pending.len() == if m.pending.len() < 65_536 {
            m.pending.len() as int
        } else {
            65_536
        },
        0 <= i < m.bounded().pending.len() ==> m.bounded().pending[i] == m.pending[i],
        m.bounded().announced == m.announced,
        m.bounded().next == m.next,
{
}

} // verus!
