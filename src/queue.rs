//! Jitter queue for the audio of one speaker.
//!
//! Packets are kept ordered by their 16-bit wrapping sequence number. Decoding
//! is done by the caller: the queue says what to decode next (a packet, a
//! forward-error-correction pass, or a loss concealment) and takes the decoded
//! samples back, then adapts its length to the observed jitter.
use std::collections::VecDeque;
use vstd::prelude::*;
use crate::window::{SlidingWindowMinimum, seq_min};

verus! {

/// This many consecutive concealments end a stream.
pub const MAX_PACKET_LOSSES: usize = 3;
/// How many buffer-size observations the jitter estimate spans.
pub const LAST_BUFFER_SIZE_COUNT: u8 = 255;
/// Most samples per channel one packet may hold, and the buffer's cap: 0.5 s.
pub const MAX_BUFFER_SIZE: usize = 24000;
/// Most packets waiting in one queue.
pub const MAX_BUFFER_PACKETS: usize = 50;
/// Longest wait, in samples, before a prebuffering queue starts anyway.
pub const MAX_BUFFER_TIME: usize = 24000;
/// While speeding up, one stereo sample in this many is dropped.
pub const SPEED_CHANGE_STEPS: usize = 100;
/// Samples per channel in a usual 20 ms frame at 48 kHz.
pub const USUAL_FRAME_SIZE: usize = 960;

/// Why a packet was not queued.
#[derive(Clone, Copy, Debug, PartialEq, Eq, Structural)]
pub enum Error {
    /// The queue already holds `MAX_BUFFER_PACKETS` packets.
    QueueFull,
    /// The packet decodes to more than `MAX_BUFFER_SIZE` samples per channel.
    TooManySamples,
    /// The packet is too far behind or ahead of the one expected next.
    TooLate { wanted: u16, got: u16 },
    /// A packet with this sequence number is already queued.
    Duplicate(u16),
    /// The packet's sample count could not be read.
    GetPacketSample,
}

/// A queued packet.
pub struct QueuePacket {
    pub packet: Vec<u8>,
    /// Samples per channel that the packet decodes to; 0 for an end marker.
    pub samples: usize,
    pub id: u16,
}

/// How far `a` is ahead of `b` on the 16-bit wrapping sequence circle.
pub open spec fn ahead(a: u16, b: u16) -> int {
    if a >= b {
        a - b
    } else {
        a - b + 65536
    }
}

/// A payload of at most one byte marks the end of a stream.
pub open spec fn is_end_marker(p: QueuePacket) -> bool {
    p.packet@.len() <= 1
}

/// Total samples of the packets.
pub open spec fn sum_samples(s: Seq<QueuePacket>) -> nat
    decreases s.len(),
{
    if s.len() == 0 {
        0
    } else {
        s[0].samples as nat + sum_samples(s.subrange(1, s.len() as int))
    }
}

/// Sequence numbers of the packets, in queue order.
pub open spec fn ids_of(s: Seq<QueuePacket>) -> Seq<u16> {
    s.map_values(|p: QueuePacket| p.id)
}

/// Packets stay within `MAX_BUFFER_PACKETS` ahead of `next`, strictly ascending.
pub open spec fn ordered_from(s: Seq<QueuePacket>, next: u16) -> bool {
    &&& forall|k: int| 0 <= k < s.len() ==> ahead(#[trigger] s[k].id, next) <= MAX_BUFFER_PACKETS
    &&& forall|a: int, b: int|
        0 <= a < b < s.len() ==> ahead(#[trigger] s[a].id, next) < ahead(#[trigger] s[b].id, next)
}

/// Position at which a packet with sequence `id` is placed.
pub open spec fn insert_pos(s: Seq<QueuePacket>, next: u16, id: u16) -> int
    decreases s.len(),
{
    if s.len() == 0 {
        0
    } else {
        insert_pos(s.drop_last(), next, id) + if ahead(s.last().id, next) < ahead(id, next) { 1int } else { 0 }
    }
}

pub proof fn lemma_sum_drop_first(s: Seq<QueuePacket>)
    requires
        s.len() > 0,
    ensures
        sum_samples(s) == s[0].samples + sum_samples(s.subrange(1, s.len() as int)),
{
}

pub proof fn lemma_sum_push_front(x: QueuePacket, s: Seq<QueuePacket>)
    ensures
        sum_samples(seq![x] + s) == x.samples + sum_samples(s),
{
    let t = seq![x] + s;
    assert(t.subrange(1, t.len() as int) =~= s);
}

pub proof fn lemma_sum_insert(s: Seq<QueuePacket>, i: int, x: QueuePacket)
    requires
        0 <= i <= s.len(),
    ensures
        sum_samples(s.insert(i, x)) == sum_samples(s) + x.samples,
    decreases s.len(),
{
    let t = s.insert(i, x);
    if i == 0 {
        assert(t =~= seq![x] + s);
        lemma_sum_push_front(x, s);
    } else {
        let r = s.subrange(1, s.len() as int);
        lemma_sum_insert(r, i - 1, x);
        assert(t.subrange(1, t.len() as int) =~= r.insert(i - 1, x));
    }
}

pub proof fn lemma_sum_bound(s: Seq<QueuePacket>)
    requires
        forall|k: int| 0 <= k < s.len() ==> #[trigger] s[k].samples <= MAX_BUFFER_SIZE,
    ensures
        sum_samples(s) <= s.len() * MAX_BUFFER_SIZE,
    decreases s.len(),
{
    if s.len() > 0 {
        let r = s.subrange(1, s.len() as int);
        assert forall|k: int| 0 <= k < r.len() implies #[trigger] r[k].samples <= MAX_BUFFER_SIZE by {
            assert(r[k] == s[k + 1]);
        }
        lemma_sum_bound(r);
    }
}


/// What the caller is asked to decode next.
pub struct DecodeRequest {
    /// The payload to decode; `None` asks for a loss concealment.
    pub packet: Option<Vec<u8>>,
    /// Recover the previous frame from this payload's redundancy.
    pub fec: bool,
    /// Samples per channel to produce at most.
    pub samples: usize,
}

/// The next thing a take needs.
pub enum TakeStep {
    /// The queue is still prebuffering and yields nothing this time.
    Waiting,
    /// Decode as requested and hand the result to `complete_decode`.
    Decode(DecodeRequest),
    /// Enough samples are decoded: call `finish_take`.
    Ready,
    /// The stream ended: call `finish_take` with `ended` set.
    Ended,
}

/// A decode that was handed out and not yet completed.
pub struct PendingDecode {
    pub has_packet: bool,
    pub fec: bool,
    pub samples: usize,
    /// The front packet stays queued: it stood after a missing one.
    pub requeued: bool,
}

/// A queue for the audio packets of one stream.
pub struct AudioQueue {
    /// Gain in percent applied when mixing; 100 leaves samples unchanged.
    volume: u16,
    /// The sequence number expected next, used to detect loss.
    next_id: u16,
    packet_buffer: VecDeque<QueuePacket>,
    /// Samples per channel in `packet_buffer`.
    packet_buffer_samples: usize,
    /// Decoded interleaved samples not yet handed out, from `decoded_pos` on.
    decoded_buffer: Vec<i16>,
    decoded_pos: usize,
    /// Samples per channel of the most recent decode.
    last_packet_samples: usize,
    /// Consecutive decodes that were a loss.
    packet_loss_num: usize,
    /// Samples to receive before this queue starts to play.
    buffering_samples: usize,
    /// Buffer sizes in usual frames over the last decodes.
    last_buffer_size_min: SlidingWindowMinimum,
    /// The same sizes stored as `255 - size`, so that their minimum gives the maximum.
    last_buffer_size_max: SlidingWindowMinimum,
    /// Samples asked for while prebuffering.
    buffered_for_samples: usize,
    pending: Option<PendingDecode>,
    /// The last decode produced nothing.
    stopped: bool,
    decoded_total: Ghost<nat>,
    concealed_total: Ghost<nat>,
    dropped_total: Ghost<nat>,
    emitted_total: Ghost<nat>,
}

impl AudioQueue {
    pub closed spec fn packets(&self) -> Seq<QueuePacket> {
        self.packet_buffer@
    }

    pub closed spec fn gain(&self) -> u16 {
        self.volume
    }

    pub closed spec fn next_id(&self) -> u16 {
        self.next_id
    }

    pub closed spec fn buffered(&self) -> nat {
        self.packet_buffer_samples as nat
    }

    pub closed spec fn prebuffer(&self) -> nat {
        self.buffering_samples as nat
    }

    pub closed spec fn prebuffered_for(&self) -> nat {
        self.buffered_for_samples as nat
    }

    pub closed spec fn loss_count(&self) -> nat {
        self.packet_loss_num as nat
    }

    pub closed spec fn last_frame(&self) -> nat {
        self.last_packet_samples as nat
    }

    /// Decoded samples not yet handed out.
    pub closed spec fn scratch(&self) -> Seq<i16> {
        self.decoded_buffer@.subrange(self.decoded_pos as int, self.decoded_buffer@.len() as int)
    }

    pub closed spec fn pending(&self) -> Option<PendingDecode> {
        self.pending
    }

    pub closed spec fn stopped(&self) -> bool {
        self.stopped
    }

    /// Buffer sizes observed so far, in usual frames.
    pub closed spec fn size_history(&self) -> Seq<u8> {
        self.last_buffer_size_min.history()
    }

    /// Interleaved samples decoded from payloads so far.
    pub closed spec fn decoded_count(&self) -> nat {
        self.decoded_total@
    }

    /// Interleaved samples synthesized so far: recovered, concealed or silence.
    pub closed spec fn concealed_count(&self) -> nat {
        self.concealed_total@
    }

    /// Interleaved samples dropped by speed-up so far.
    pub closed spec fn dropped_count(&self) -> nat {
        self.dropped_total@
    }

    /// Interleaved samples handed out so far.
    pub closed spec fn emitted_count(&self) -> nat {
        self.emitted_total@
    }

    pub closed spec fn wf(&self) -> bool {
        let pb = self.packet_buffer@;
        &&& pb.len() <= MAX_BUFFER_PACKETS
        &&& forall|k: int| 0 <= k < pb.len() ==> (#[trigger] pb[k]).samples <= MAX_BUFFER_SIZE
        &&& forall|k: int| 0 <= k < pb.len() && is_end_marker(#[trigger] pb[k]) ==> pb[k].samples == 0
        &&& ordered_from(pb, self.next_id)
        &&& self.packet_buffer_samples == sum_samples(pb)
        &&& self.decoded_pos <= self.decoded_buffer@.len()
        &&& self.last_packet_samples <= MAX_BUFFER_SIZE
        &&& self.last_buffer_size_min.wf()
        &&& self.last_buffer_size_max.wf()
        &&& self.last_buffer_size_min.size() == LAST_BUFFER_SIZE_COUNT
        &&& self.last_buffer_size_max.size() == LAST_BUFFER_SIZE_COUNT
        &&& self.last_buffer_size_max.history() == self.last_buffer_size_min.history().map_values(
            |v: u8| (255 - v) as u8,
        )
        &&& self.last_buffer_size_min.history().len() > 0
        &&& (self.pending matches Some(p) ==> p.samples <= MAX_BUFFER_SIZE)
        &&& (self.pending matches Some(p) ==> (p.requeued ==> pb.len() > 0))
        &&& self.emitted_total@ + self.scratch().len() + self.dropped_total@ == self.decoded_total@
            + self.concealed_total@
    }

    /// Creates the queue for a stream from its first packet, whose sample count
    /// per channel is `samples` (`None` where it could not be read).
    pub fn new(sequence: u16, packet: Vec<u8>, samples: Option<usize>) -> (r: Result<AudioQueue, Error>)
        ensures
            samples is None ==> r == Err::<AudioQueue, Error>(Error::GetPacketSample),
            (samples matches Some(n) && n > MAX_BUFFER_SIZE) ==> r == Err::<AudioQueue, Error>(
                Error::TooManySamples,
            ),
            (samples matches Some(n) && n <= MAX_BUFFER_SIZE) ==> (r matches Ok(q) && {
                &&& q.wf()
                &&& q.pending() is None
                &&& q.next_id() == sequence
                &&& q.last_frame() == samples->Some_0
                &&& q.gain() == 100
                &&& q.prebuffer() == 0
                &&& q.prebuffered_for() == 0
                &&& q.loss_count() == 0
                &&& q.scratch().len() == 0
                &&& !q.stopped()
                &&& q.packets() == seq![
                    QueuePacket { packet, samples: if packet@.len() <= 1 { 0 } else { samples->Some_0 }, id: sequence },
                ]
                &&& q.size_history() == seq![0u8]
                &&& q.emitted_count() == 0 && q.decoded_count() == 0 && q.concealed_count() == 0
                    && q.dropped_count() == 0
            }),
    {
        let n = match samples {
            None => return Err(Error::GetPacketSample),
            Some(n) => n,
        };
        if n > MAX_BUFFER_SIZE {
            return Err(Error::TooManySamples);
        }
        let mut q = AudioQueue {
            volume: 100,
            next_id: sequence,
            packet_buffer: VecDeque::new(),
            packet_buffer_samples: 0,
            decoded_buffer: Vec::new(),
            decoded_pos: 0,
            last_packet_samples: n,
            packet_loss_num: 0,
            buffering_samples: 0,
            last_buffer_size_min: SlidingWindowMinimum::new(LAST_BUFFER_SIZE_COUNT),
            last_buffer_size_max: SlidingWindowMinimum::new(LAST_BUFFER_SIZE_COUNT),
            buffered_for_samples: 0,
            pending: None,
            stopped: false,
            decoded_total: Ghost(0),
            concealed_total: Ghost(0),
            dropped_total: Ghost(0),
            emitted_total: Ghost(0),
        };
        let v: u8 = 0;
        q.last_buffer_size_min.push(v);
        q.last_buffer_size_max.push(255 - v);
        assert(q.last_buffer_size_max.history() =~= q.last_buffer_size_min.history().map_values(
            |v: u8| (255 - v) as u8,
        ));
        assert(q.scratch() =~= Seq::<i16>::empty());
        let ghost p = packet;
        let r = q.add_packet(sequence, packet, Some(n));
        assert(r is Ok);
        assert(q.packets() =~= seq![
            QueuePacket { packet: p, samples: if p@.len() <= 1 { 0 } else { n }, id: sequence },
        ]);
        Ok(q)
    }

    /// Queues a packet whose sample count per channel is `samples` (`None`
    /// where it could not be read; not needed for an end marker).
    #[verifier::rlimit(50)]
    pub fn add_packet(&mut self, sequence: u16, packet: Vec<u8>, samples: Option<usize>) -> (r: Result<(), Error>)
        requires
            old(self).wf(),
            old(self).pending() is None,
        ensures
            final(self).wf(),
            final(self).pending() is None,
            r == add_packet_result(old(self).packets(), old(self).next_id(), sequence, packet@.len(), samples),
            r is Err ==> *final(self) == *old(self),
            r is Ok ==> {
                let n = if packet@.len() <= 1 { 0 } else { samples->Some_0 };
                let pos = insert_pos(old(self).packets(), old(self).next_id(), sequence);
                &&& final(self).packets() == old(self).packets().insert(
                    pos,
                    QueuePacket { packet, samples: n, id: sequence },
                )
                &&& final(self).buffered() == old(self).buffered() + n
                &&& final(self).prebuffer() == prebuffer_after(
                    old(self).prebuffer(),
                    old(self).packets(),
                    old(self).next_id(),
                    sequence,
                    n as nat,
                    old(self).last_frame(),
                )
                &&& final(self).next_id() == old(self).next_id()
                &&& final(self).scratch() == old(self).scratch()
                &&& final(self).last_frame() == old(self).last_frame()
                &&& final(self).loss_count() == old(self).loss_count()
                &&& final(self).prebuffered_for() == old(self).prebuffered_for()
                &&& final(self).size_history() == old(self).size_history()
                &&& final(self).stopped() == old(self).stopped()
                &&& final(self).gain() == old(self).gain()
                &&& final(self).emitted_count() == old(self).emitted_count()
                &&& final(self).decoded_count() == old(self).decoded_count()
                &&& final(self).concealed_count() == old(self).concealed_count()
                &&& final(self).dropped_count() == old(self).dropped_count()
            },
    {
        let len = self.packet_buffer.len();
        if len >= MAX_BUFFER_PACKETS {
            return Err(Error::QueueFull);
        }
        let n: usize;
        if packet.len() <= 1 {
            n = 0;
        } else {
            match samples {
                None => return Err(Error::GetPacketSample),
                Some(s) => {
                    if s > MAX_BUFFER_SIZE {
                        return Err(Error::TooManySamples);
                    }
                    n = s;
                },
            }
        }
        let id = sequence;
        if id.wrapping_sub(self.next_id) > MAX_BUFFER_PACKETS as u16 {
            return Err(Error::TooLate { wanted: self.next_id, got: id });
        }
        let ghost pb = self.packet_buffer@;
        let ghost next = self.next_id;
        let ghost d = ahead(id, next);
        // Find the first packet that is not before the new one.
        let mut i: usize = len;
        while i > 0 && self.packet_buffer[i - 1].id.wrapping_sub(id) <= MAX_BUFFER_PACKETS as u16
            invariant
                i <= len,
                len == pb.len(),
                self.packet_buffer@ == pb,
                self.next_id == next,
                d == ahead(id, next),
                d <= MAX_BUFFER_PACKETS,
                ordered_from(pb, next),
                forall|j: int| i <= j < len ==> ahead(#[trigger] pb[j].id, next) >= d,
            decreases i,
        {
            assert(ahead(pb[i - 1].id, next) <= MAX_BUFFER_PACKETS);
            i = i - 1;
        }
        proof {
            if i > 0 {
                assert(ahead(pb[i - 1].id, next) < d);
                assert forall|j: int| 0 <= j < i implies ahead(#[trigger] pb[j].id, next) < d by {
                    if j < i - 1 {
                        assert(ahead(pb[j].id, next) < ahead(pb[i - 1].id, next));
                    }
                }
            }
            lemma_insert_pos(pb, next, id, i as int);
        }
        if i < len && self.packet_buffer[i].id == id {
            return Err(Error::Duplicate(id));
        }
        proof {
            if i < len {
                assert(ahead(pb[i as int].id, next) != d);
                assert forall|j: int| i <= j < len implies ahead(#[trigger] pb[j].id, next) > d by {
                    if j > i {
                        assert(ahead(pb[i as int].id, next) < ahead(pb[j].id, next));
                    }
                }
            }
            assert forall|k: int| 0 <= k < pb.len() implies (#[trigger] pb[k]).id != id by {
                if k < i {
                } else {
                    if k > i {
                        assert(ahead(pb[i as int].id, next) < ahead(pb[k].id, next));
                    }
                }
            }
        }
        let last_frame = self.last_packet_samples;
        if len == 0 {
            self.buffering_samples = self.buffering_samples.saturating_sub(n);
        } else {
            let back = self.packet_buffer[len - 1].id.wrapping_sub(self.next_id);
            let off = id.wrapping_sub(self.next_id);
            if off > back {
                let lost = (off - back - 1) as usize;
                assert(lost <= 50 && last_frame <= 24000);
                assert(lost * last_frame <= 50 * 24000) by (nonlinear_arith)
                    requires lost <= 50, last_frame <= 24000;
                self.buffering_samples = self.buffering_samples.saturating_sub(n);
                self.buffering_samples = self.buffering_samples.saturating_sub(lost * last_frame);
            }
        }
        let ghost entry = QueuePacket { packet, samples: n, id };
        proof {
            lemma_sum_insert(pb, i as int, entry);
            lemma_sum_bound(pb);
        }
        self.packet_buffer_samples = self.packet_buffer_samples + n;
        self.packet_buffer.insert(i, QueuePacket { packet, samples: n, id });
        proof {
            assert(self.packet_buffer@ == pb.insert(i as int, entry));
            lemma_insert_ordered(pb, i as int, entry, next);
        }
        Ok(())
    }

    /// Starts taking `len` samples. Returns `false` while the queue is still
    /// prebuffering: it then yields nothing this time.
    pub fn begin_take(&mut self, len: usize) -> (r: bool)
        requires
            old(self).wf(),
            old(self).pending() is None,
        ensures
            final(self).wf(),
            final(self).pending() is None,
            r == !(old(self).prebuffer() > 0 && old(self).prebuffered_for() < MAX_BUFFER_TIME),
            final(self).packets() == old(self).packets(),
            final(self).next_id() == old(self).next_id(),
            final(self).buffered() == old(self).buffered(),
            final(self).scratch() == old(self).scratch(),
            final(self).loss_count() == old(self).loss_count(),
            final(self).last_frame() == old(self).last_frame(),
            final(self).size_history() == old(self).size_history(),
            final(self).gain() == old(self).gain(),
            final(self).emitted_count() == old(self).emitted_count(),
            final(self).decoded_count() == old(self).decoded_count(),
            final(self).concealed_count() == old(self).concealed_count(),
            final(self).dropped_count() == old(self).dropped_count(),
            !r ==> final(self).prebuffer() == old(self).prebuffer() && final(self).prebuffered_for()
                == sat_add(old(self).prebuffered_for(), len as nat) && final(self).stopped() == old(self).stopped(),
            r ==> final(self).prebuffer() == 0 && !final(self).stopped() && final(self).prebuffered_for()
                == if old(self).prebuffer() > 0 { 0 } else { old(self).prebuffered_for() },
    {
        if self.buffering_samples > 0 {
            if self.buffered_for_samples >= MAX_BUFFER_TIME {
                // Waited too long: start with what is there.
                self.buffering_samples = 0;
                self.buffered_for_samples = 0;
            } else {
                self.buffered_for_samples = self.buffered_for_samples.saturating_add(len);
                return false;
            }
        }
        if self.decoded_pos > 0 {
            let rest = self.decoded_buffer.split_off(self.decoded_pos);
            self.decoded_buffer = rest;
            self.decoded_pos = 0;
        }
        self.stopped = false;
        assert(self.scratch() =~= old(self).scratch());
        true
    }

    /// Starts taking `len` interleaved samples: says what the take needs first.
    /// Once a decode is completed, `next_step` says what it needs next.
    pub fn get_next_data(&mut self, len: usize) -> (r: TakeStep)
        requires
            old(self).wf(),
            old(self).pending() is None,
        ensures
            final(self).wf(),
            (r is Waiting) == (old(self).prebuffer() > 0 && old(self).prebuffered_for() < MAX_BUFFER_TIME),
            r is Waiting ==> final(self).prebuffered_for() == sat_add(old(self).prebuffered_for(), len as nat)
                && final(self).packets() == old(self).packets() && final(self).next_id() == old(self).next_id()
                && final(self).scratch() == old(self).scratch() && final(self).pending() is None
                && final(self).prebuffer() == old(self).prebuffer(),
            !(r is Waiting) ==> final(self).prebuffered_for() == if old(self).prebuffer() > 0 { 0 } else {
                old(self).prebuffered_for()
            },
            r is Waiting ==> final(self).buffered() == old(self).buffered(),
            r is Ready ==> final(self).scratch().len() >= len,
            r is Ended ==> final(self).scratch().len() < len,
            final(self).buffered() <= old(self).buffered(),
            final(self).buffered() == sum_samples(final(self).packets()),
            !(r is Waiting) ==> final(self).prebuffer() == 0 && !final(self).stopped()
                && next_step_spec(old(self).packets(), old(self).next_id(), old(self).last_frame(),
                    old(self).scratch().len() >= len, r, final(self).packets(), final(self).next_id(),
                    final(self).pending()),
            final(self).scratch() == old(self).scratch(),
            final(self).loss_count() == old(self).loss_count(),
            final(self).last_frame() == old(self).last_frame(),
            final(self).size_history() == old(self).size_history(),
            final(self).gain() == old(self).gain(),
            final(self).emitted_count() == old(self).emitted_count(),
            final(self).decoded_count() == old(self).decoded_count(),
            final(self).concealed_count() == old(self).concealed_count(),
            final(self).dropped_count() == old(self).dropped_count(),
    {
        if !self.begin_take(len) {
            return TakeStep::Waiting;
        }
        self.next_step(len)
    }

    /// Says what the take of `len` samples needs next.
    pub fn next_step(&mut self, len: usize) -> (r: TakeStep)
        requires
            old(self).wf(),
            old(self).pending() is None,
        ensures
            final(self).wf(),
            final(self).scratch() == old(self).scratch(),
            final(self).loss_count() == old(self).loss_count(),
            final(self).last_frame() == old(self).last_frame(),
            final(self).size_history() == old(self).size_history(),
            final(self).stopped() == old(self).stopped(),
            final(self).gain() == old(self).gain(),
            final(self).prebuffer() == old(self).prebuffer(),
            final(self).prebuffered_for() == old(self).prebuffered_for(),
            final(self).emitted_count() == old(self).emitted_count(),
            final(self).decoded_count() == old(self).decoded_count(),
            final(self).concealed_count() == old(self).concealed_count(),
            final(self).dropped_count() == old(self).dropped_count(),
            next_step_spec(old(self).packets(), old(self).next_id(), old(self).last_frame(),
                old(self).scratch().len() >= len || old(self).stopped(), r, final(self).packets(),
                final(self).next_id(), final(self).pending()),
            final(self).buffered() <= old(self).buffered(),
            final(self).buffered() == sum_samples(final(self).packets()),
            r is Ready ==> final(self).scratch().len() >= len || final(self).stopped(),
            r is Ended ==> final(self).scratch().len() < len,
    {
        if self.decoded_buffer.len() - self.decoded_pos >= len || self.stopped {
            return TakeStep::Ready;
        }
        let ghost pb = self.packet_buffer@;
        let ghost next = self.next_id;
        if self.packet_buffer.len() == 0 {
            let samples = self.last_packet_samples;
            self.pending = Some(PendingDecode { has_packet: false, fec: false, samples, requeued: false });
            return TakeStep::Decode(DecodeRequest { packet: None, fec: false, samples });
        }
        let front_len = self.packet_buffer[0].packet.len();
        if front_len <= 1 {
            // End of stream.
            self.packet_buffer.pop_front();
            proof {
                lemma_sum_drop_first(pb);
                lemma_ordered_drop_first(pb, next);
            }
            return TakeStep::Ended;
        }
        let cur = self.next_id;
        self.next_id = cur.wrapping_add(1);
        proof {
            lemma_offsets_grow(pb, next);
        }
        if self.packet_buffer[0].id == cur {
            let p = self.packet_buffer.pop_front();
            match p {
                Some(p) => {
                    proof {
                        lemma_sum_drop_first(pb);
                        lemma_ordered_drop_first(pb, next);
                        lemma_shift_next(pb.subrange(1, pb.len() as int), next);
                    }
                    self.packet_buffer_samples = self.packet_buffer_samples - p.samples;
                    let samples = p.samples;
                    self.pending = Some(PendingDecode { has_packet: true, fec: false, samples, requeued: false });
                    TakeStep::Decode(DecodeRequest { packet: Some(p.packet), fec: false, samples })
                },
                None => TakeStep::Ready,
            }
        } else {
            proof {
                lemma_shift_next(pb, next);
            }
            if self.packet_buffer[0].id == self.next_id {
                // The missing packet can be recovered from the next one.
                let bytes = copy_bytes(&self.packet_buffer[0].packet);
                let samples = self.packet_buffer[0].samples;
                self.pending = Some(PendingDecode { has_packet: true, fec: true, samples, requeued: true });
                TakeStep::Decode(DecodeRequest { packet: Some(bytes), fec: true, samples })
            } else {
                let samples = self.last_packet_samples;
                self.pending = Some(PendingDecode { has_packet: false, fec: false, samples, requeued: true });
                TakeStep::Decode(DecodeRequest { packet: None, fec: false, samples })
            }
        }
    }

    /// All but the packets, their sample total and the expected sequence number agree.
    closed spec fn same_but_packets(a: AudioQueue, b: AudioQueue) -> bool {
        &&& a.decoded_buffer == b.decoded_buffer
        &&& a.decoded_pos == b.decoded_pos
        &&& a.last_packet_samples == b.last_packet_samples
        &&& a.packet_loss_num == b.packet_loss_num
        &&& a.buffering_samples == b.buffering_samples
        &&& a.buffered_for_samples == b.buffered_for_samples
        &&& a.last_buffer_size_min == b.last_buffer_size_min
        &&& a.last_buffer_size_max == b.last_buffer_size_max
        &&& a.pending == b.pending
        &&& a.stopped == b.stopped
        &&& a.volume == b.volume
        &&& a.decoded_total == b.decoded_total
        &&& a.concealed_total == b.concealed_total
        &&& a.dropped_total == b.dropped_total
        &&& a.emitted_total == b.emitted_total
    }

    /// Records how full the queue is, in usual frames.
    fn observe(&mut self)
        requires
            old(self).wf(),
        ensures
            final(self).wf(),
            final(self).size_history() == push_size(old(self).size_history(),
                occupancy(old(self).packets(), old(self).next_id(), old(self).last_frame())),
            final(self).packets() == old(self).packets(),
            final(self).next_id() == old(self).next_id(),
            final(self).buffered() == old(self).buffered(),
            final(self).decoded_buffer == old(self).decoded_buffer,
            final(self).decoded_pos == old(self).decoded_pos,
            final(self).last_packet_samples == old(self).last_packet_samples,
            final(self).packet_loss_num == old(self).packet_loss_num,
            final(self).buffering_samples == old(self).buffering_samples,
            final(self).buffered_for_samples == old(self).buffered_for_samples,
            final(self).pending == old(self).pending,
            final(self).stopped == old(self).stopped,
            final(self).volume == old(self).volume,
            final(self).decoded_total == old(self).decoded_total,
            final(self).concealed_total == old(self).concealed_total,
            final(self).dropped_total == old(self).dropped_total,
            final(self).emitted_total == old(self).emitted_total,
    {
        let len = self.packet_buffer.len();
        let mut count: usize = 0;
        if len > 0 {
            proof {
                lemma_offsets_grow(self.packet_buffer@, self.next_id);
                lemma_sum_bound(self.packet_buffer@);
            }
            let back = self.packet_buffer[len - 1].id.wrapping_sub(self.next_id) as usize;
            let gap = back + 1 - len;
            let last = self.last_packet_samples;
            assert(gap * last <= 51 * 24000) by (nonlinear_arith) requires gap <= 51, last <= 24000;
            count = self.packet_buffer_samples + gap * last;
        }
        self.add_buffer_size(count);
    }

    /// Drops packets from the front until those left hold fewer than
    /// `min + 1` usual frames; playback jumps to the new front.
    #[verifier::rlimit(50)]
    fn truncate(&mut self, min: u8)
        requires
            old(self).wf(),
            old(self).pending() is None,
        ensures
            final(self).wf(),
            truncated(old(self).packets(), old(self).next_id(), min as nat, final(self).packets(), final(self).next_id()),
            final(self).buffered() <= old(self).buffered(),
            final(self).size_history() == old(self).size_history(),
            final(self).decoded_buffer == old(self).decoded_buffer,
            final(self).decoded_pos == old(self).decoded_pos,
            final(self).last_packet_samples == old(self).last_packet_samples,
            final(self).packet_loss_num == old(self).packet_loss_num,
            final(self).buffering_samples == old(self).buffering_samples,
            final(self).buffered_for_samples == old(self).buffered_for_samples,
            final(self).pending == old(self).pending,
            final(self).stopped == old(self).stopped,
            final(self).volume == old(self).volume,
            final(self).decoded_total == old(self).decoded_total,
            final(self).concealed_total == old(self).concealed_total,
            final(self).dropped_total == old(self).dropped_total,
            final(self).emitted_total == old(self).emitted_total,
    {
        let ghost pb = self.packet_buffer@;
        let len = self.packet_buffer.len();
        let limit = (min as usize + 1) * USUAL_FRAME_SIZE;
        let mut keep: usize = 0;
        let mut keep_samples: usize = 0;
        proof {
            assert(pb.subrange(len as int, len as int) =~= Seq::<QueuePacket>::empty());
        }
        while keep < len && keep_samples + self.packet_buffer[len - 1 - keep].samples < limit
            invariant
                keep <= len,
                len == pb.len(),
                self.packet_buffer@ == pb,
                keep_samples == sum_samples(pb.subrange(len - keep, len as int)),
                keep_samples < limit,
                limit == (min as nat + 1) * (USUAL_FRAME_SIZE as nat),
                limit <= 256 * 960,
                forall|k: int| 0 <= k < pb.len() ==> (#[trigger] pb[k]).samples <= MAX_BUFFER_SIZE,
            decreases len - keep,
        {
            let ghost t = pb.subrange(len - keep - 1, len as int);
            proof {
                assert(t.subrange(1, t.len() as int) =~= pb.subrange(len - keep, len as int));
                lemma_sum_drop_first(t);
            }
            keep_samples = keep_samples + self.packet_buffer[len - 1 - keep].samples;
            keep = keep + 1;
        }
        proof {
            if keep < len {
                let t = pb.subrange(len - keep - 1, len as int);
                assert(t.subrange(1, t.len() as int) =~= pb.subrange(len - keep, len as int));
                lemma_sum_drop_first(t);
                assert(t[0] == pb[len - keep - 1]);
            }
        }
        let ghost kept_sum = keep_samples;
        let drop = len - keep;
        let mut i: usize = 0;
        assert(pb.subrange(0, len as int) =~= pb);
        while i < drop
            invariant
                i <= drop,
                drop == len - keep,
                len == pb.len(),
                self.packet_buffer@ == pb.subrange(i as int, len as int),
                self.packet_buffer_samples == sum_samples(pb.subrange(i as int, len as int)),
                self.next_id == old(self).next_id,
                Self::same_but_packets(*self, *old(self)),
                kept_sum == sum_samples(pb.subrange(len - keep, len as int)),
                kept_sum < (min as nat + 1) * (USUAL_FRAME_SIZE as nat),
                keep == len || sum_samples(pb.subrange(len - keep - 1, len as int)) >= (min as nat + 1)
                    * (USUAL_FRAME_SIZE as nat),
            decreases drop - i,
        {
            let ghost cur = self.packet_buffer@;
            proof {
                lemma_sum_drop_first(cur);
                assert(cur.subrange(1, cur.len() as int) =~= pb.subrange(i + 1, len as int));
            }
            let p = self.packet_buffer.pop_front();
            match p {
                Some(p) => {
                    self.packet_buffer_samples = self.packet_buffer_samples - p.samples;
                },
                None => {},
            }
            i = i + 1;
        }
        let ghost rest = self.packet_buffer@;
        proof {
            lemma_sum_suffix_le(pb, drop as int);
            assert forall|k: int| 0 <= k < rest.len() implies #[trigger] rest[k] == pb[drop + k] by {}
            if keep > 0 {
                lemma_suffix_ordered(pb, old(self).next_id, drop as int);
                assert(rest[0] == pb[drop as int]);
            }
        }
        if self.packet_buffer.len() > 0 {
            self.next_id = self.packet_buffer[0].id;
        }
        proof {
            let k = keep as int;
            assert(pb.subrange(pb.len() - k, pb.len() as int) == rest);
            assert(self.packet_buffer@ == rest);
            assert(truncated(pb, old(self).next_id, min as nat, rest, self.next_id));
        }
    }

    /// Drops one stereo sample in `SPEED_CHANGE_STEPS` from the last `n`
    /// decoded stereo samples, so that playback catches up.
    fn speed_up(&mut self, n: usize)
        requires
            old(self).wf(),
            2 * n <= old(self).scratch().len(),
        ensures
            final(self).wf(),
            final(self).scratch() == old(self).scratch().subrange(0, old(self).scratch().len() - 2 * n)
                + sped_up(old(self).scratch().subrange(old(self).scratch().len() - 2 * n,
                    old(self).scratch().len() as int), n as nat, (n / SPEED_CHANGE_STEPS) as nat),
            final(self).dropped_count() == old(self).dropped_count() + 2 * (n / SPEED_CHANGE_STEPS),
            final(self).packets() == old(self).packets(),
            final(self).next_id() == old(self).next_id(),
            final(self).buffered() == old(self).buffered(),
            final(self).size_history() == old(self).size_history(),
            final(self).last_packet_samples == old(self).last_packet_samples,
            final(self).packet_loss_num == old(self).packet_loss_num,
            final(self).buffering_samples == old(self).buffering_samples,
            final(self).buffered_for_samples == old(self).buffered_for_samples,
            final(self).pending == old(self).pending,
            final(self).stopped == old(self).stopped,
            final(self).volume == old(self).volume,
            final(self).decoded_total == old(self).decoded_total,
            final(self).concealed_total == old(self).concealed_total,
            final(self).emitted_total == old(self).emitted_total,
    {
        let ghost sc = self.scratch();
        let ghost whole = self.decoded_buffer@;
        let start = self.decoded_buffer.len() - 2 * n;
        let frame = self.decoded_buffer.split_off(start);
        let ghost prefix = self.decoded_buffer@;
        let cut = n / SPEED_CHANGE_STEPS;
        let mut j: usize = 0;
        while j < n
            invariant
                j <= n,
                frame@.len() == 2 * n,
                self.decoded_buffer@ == prefix + sped_up(frame@, j as nat, cut as nat),
                cut == n / SPEED_CHANGE_STEPS,
                2 * n <= usize::MAX,
                self.decoded_pos == old(self).decoded_pos,
                self.packet_buffer == old(self).packet_buffer,
                self.packet_buffer_samples == old(self).packet_buffer_samples,
                self.next_id == old(self).next_id,
                self.last_packet_samples == old(self).last_packet_samples,
                self.packet_loss_num == old(self).packet_loss_num,
                self.buffering_samples == old(self).buffering_samples,
                self.buffered_for_samples == old(self).buffered_for_samples,
                self.last_buffer_size_min == old(self).last_buffer_size_min,
                self.last_buffer_size_max == old(self).last_buffer_size_max,
                self.pending == old(self).pending,
                self.stopped == old(self).stopped,
                self.volume == old(self).volume,
                self.decoded_total == old(self).decoded_total,
                self.concealed_total == old(self).concealed_total,
                self.dropped_total == old(self).dropped_total,
                self.emitted_total == old(self).emitted_total,
            decreases n - j,
        {
            if !(j % SPEED_CHANGE_STEPS == 0 && j < cut * SPEED_CHANGE_STEPS) {
                self.decoded_buffer.push(frame[2 * j]);
                self.decoded_buffer.push(frame[2 * j + 1]);
                assert(frame@.subrange(2 * j as int, 2 * j + 2) =~= seq![frame@[2 * j as int], frame@[2 * j + 1]]);
            }
            j = j + 1;
            assert(self.decoded_buffer@ =~= prefix + sped_up(frame@, j as nat, cut as nat));
        }
        proof {
            lemma_sped_up_len(frame@, n as nat, cut as nat);
            lemma_dropped_count(n as nat, cut as nat);
            assert(n <= cut * 100 ==> (n + 99) / 100 == cut) by (nonlinear_arith)
                requires cut == n / 100;
            assert(n >= cut * 100) by (nonlinear_arith) requires cut == n / 100;
            assert(prefix =~= whole.subrange(0, start as int));
            assert(sc.subrange(0, sc.len() - 2 * n) =~= prefix.subrange(self.decoded_pos as int, prefix.len() as int));
            assert(frame@ =~= sc.subrange(sc.len() - 2 * n, sc.len() as int));
            assert(self.scratch() =~= sc.subrange(0, sc.len() - 2 * n) + sped_up(frame@, n as nat, cut as nat));
        }
        self.dropped_total = Ghost((self.dropped_total@ + 2 * cut) as nat);
    }

    /// Shortens the queue when it has stayed too full: truncates it beyond
    /// `MAX_BUFFER_SIZE`, otherwise speeds up the last `n` decoded stereo
    /// samples while even the smallest recent size exceeds the spread.
    fn adapt(&mut self, n: usize)
        requires
            old(self).wf(),
            old(self).pending() is None,
            n > 0,
            2 * n <= old(self).scratch().len(),
        ensures
            final(self).wf(),
            final(self).pending() is None,
            ({
                let sc = old(self).scratch();
                let h = old(self).size_history();
                let mn = seq_min(crate::window::window_of(h, LAST_BUFFER_SIZE_COUNT as nat));
                let truncates = mn > MAX_BUFFER_SIZE / USUAL_FRAME_SIZE;
                let speeds = !truncates && mn > recent_max(h) - mn;
                &&& if truncates {
                    truncated(old(self).packets(), old(self).next_id(), mn as nat, final(self).packets(),
                        final(self).next_id())
                } else {
                    final(self).packets() == old(self).packets() && final(self).next_id() == old(self).next_id()
                }
                &&& final(self).scratch() == if speeds {
                    sc.subrange(0, sc.len() - 2 * n) + sped_up(sc.subrange(sc.len() - 2 * n, sc.len() as int),
                        n as nat, (n / SPEED_CHANGE_STEPS) as nat)
                } else {
                    sc
                }
                &&& final(self).dropped_count() == old(self).dropped_count() + if speeds {
                    2 * (n / SPEED_CHANGE_STEPS)
                } else {
                    0
                }
            }),
            final(self).buffered() <= old(self).buffered(),
            final(self).size_history() == old(self).size_history(),
            final(self).last_frame() == old(self).last_frame(),
            final(self).loss_count() == old(self).loss_count(),
            final(self).stopped() == old(self).stopped(),
            final(self).prebuffer() == old(self).prebuffer(),
            final(self).prebuffered_for() == old(self).prebuffered_for(),
            final(self).gain() == old(self).gain(),
            final(self).decoded_count() == old(self).decoded_count(),
            final(self).concealed_count() == old(self).concealed_count(),
            final(self).emitted_count() == old(self).emitted_count(),
    {
        let min = self.last_buffer_size_min.get_min();
        let dev = self.get_deviation();
        if min > (MAX_BUFFER_SIZE / USUAL_FRAME_SIZE) as u8 {
            self.truncate(min);
        } else if min > dev {
            self.speed_up(n);
        }
    }

    /// Records how full the queue is, with a requeued front packet set aside.
    fn observe_aside(&mut self, requeued: bool)
        requires
            old(self).wf(),
            old(self).pending() is None,
            requeued ==> old(self).packets().len() > 0,
        ensures
            final(self).wf(),
            final(self).pending() is None,
            final(self).size_history() == push_size(old(self).size_history(), occupancy(
                if requeued { old(self).packets().subrange(1, old(self).packets().len() as int) } else { old(self).packets() },
                old(self).next_id(), old(self).last_frame())),
            final(self).packets() == old(self).packets(),
            final(self).next_id() == old(self).next_id(),
            final(self).buffered() == old(self).buffered(),
            final(self).scratch() == old(self).scratch(),
            final(self).last_frame() == old(self).last_frame(),
            final(self).loss_count() == old(self).loss_count(),
            final(self).stopped() == old(self).stopped(),
            final(self).prebuffer() == old(self).prebuffer(),
            final(self).prebuffered_for() == old(self).prebuffered_for(),
            final(self).gain() == old(self).gain(),
            final(self).decoded_count() == old(self).decoded_count(),
            final(self).concealed_count() == old(self).concealed_count(),
            final(self).dropped_count() == old(self).dropped_count(),
            final(self).emitted_count() == old(self).emitted_count(),
    {
        if requeued {
            let ghost pb = self.packet_buffer@;
            let e = self.packet_buffer.pop_front();
            match e {
                Some(e) => {
                    proof {
                        lemma_sum_drop_first(pb);
                        lemma_ordered_drop_first(pb, self.next_id);
                    }
                    self.packet_buffer_samples = self.packet_buffer_samples - e.samples;
                    self.observe();
                    proof {
                        lemma_sum_push_front(e, self.packet_buffer@);
                        assert(seq![e] + self.packet_buffer@ =~= pb);
                    }
                    let es = e.samples;
                    self.packet_buffer.push_front(e);
                    self.packet_buffer_samples = self.packet_buffer_samples + es;
                },
                None => {},
            }
        } else {
            self.observe();
        }
    }

    /// Hands over the result of the requested decode: the interleaved samples,
    /// or `None` where the decoder failed. A failure, or a result that is not
    /// whole stereo samples within the requested count, gives silence of the
    /// requested length.
    #[verifier::rlimit(100)]
    pub fn complete_decode(&mut self, result: Option<Vec<i16>>)
        requires
            old(self).wf(),
            old(self).pending() is Some,
        ensures
            final(self).wf(),
            final(self).pending() is None,
            complete_spec(*old(self), result, *final(self)),
            final(self).buffered() <= old(self).buffered(),
            final(self).buffered() == sum_samples(final(self).packets()),
            final(self).prebuffer() == old(self).prebuffer(),
            final(self).prebuffered_for() == old(self).prebuffered_for(),
            final(self).gain() == old(self).gain(),
            final(self).emitted_count() == old(self).emitted_count(),
    {
        let p = match &self.pending {
            Some(p) => PendingDecode { has_packet: p.has_packet, fec: p.fec, samples: p.samples, requeued: p.requeued },
            None => PendingDecode { has_packet: false, fec: false, samples: 0, requeued: false },
        };
        self.pending = None;
        let expected = p.samples;
        let ghost fr = frame_of(result, expected as nat);
        let mut ok = false;
        let mut frame = match result {
            Some(v) => {
                if v.len() % 2 == 0 && v.len() <= 2 * expected {
                    ok = true;
                    v
                } else {
                    silence(2 * expected)
                }
            },
            None => silence(2 * expected),
        };
        assert(frame@ == fr);
        let n = frame.len() / 2;
        let ghost sc = self.scratch();
        self.decoded_buffer.append(&mut frame);
        assert(self.scratch() =~= sc + fr);
        if ok {
            self.last_packet_samples = n;
        }
        if ok && p.has_packet && !p.fec {
            self.packet_loss_num = 0;
            self.decoded_total = Ghost((self.decoded_total@ + 2 * n) as nat);
        } else {
            self.packet_loss_num = self.packet_loss_num.saturating_add(1);
            self.concealed_total = Ghost((self.concealed_total@ + 2 * n) as nat);
        }
        self.observe_aside(p.requeued);
        if n == 0 {
            self.stopped = true;
        } else {
            self.stopped = false;
            let ghost s1 = self.scratch();
            self.adapt(n);
            assert(s1 =~= sc + fr);
            assert(s1.subrange(0, s1.len() - 2 * n) =~= sc);
            assert(s1.subrange(s1.len() - 2 * n, s1.len() as int) =~= fr);
        }
    }

    /// Ends a take of `len` samples and returns them; with `ended`, returns
    /// what is decoded so far instead. Missing samples are silence.
    pub fn finish_take(&mut self, len: usize, ended: bool) -> (r: Vec<i16>)
        requires
            old(self).wf(),
            old(self).pending() is None,
        ensures
            final(self).wf(),
            final(self).pending() is None,
            ended ==> r@ == old(self).scratch() && final(self).scratch().len() == 0,
            !ended ==> r@ == padded(old(self).scratch(), len as nat).subrange(0, len as int)
                && final(self).scratch() == padded(old(self).scratch(), len as nat).subrange(len as int,
                    padded(old(self).scratch(), len as nat).len() as int),
            final(self).emitted_count() == old(self).emitted_count() + r@.len(),
            final(self).concealed_count() == old(self).concealed_count() + if ended { 0 } else {
                padded(old(self).scratch(), len as nat).len() - old(self).scratch().len()
            },
            final(self).decoded_count() == old(self).decoded_count(),
            final(self).dropped_count() == old(self).dropped_count(),
            final(self).packets() == old(self).packets(),
            final(self).next_id() == old(self).next_id(),
            final(self).buffered() == old(self).buffered(),
            final(self).loss_count() == old(self).loss_count(),
            final(self).last_frame() == old(self).last_frame(),
            final(self).size_history() == old(self).size_history(),
            final(self).stopped() == old(self).stopped(),
            final(self).gain() == old(self).gain(),
            final(self).prebuffer() == old(self).prebuffer(),
            final(self).prebuffered_for() == old(self).prebuffered_for(),
    {
        let ghost sc = self.scratch();
        let have = self.decoded_buffer.len() - self.decoded_pos;
        if !ended && have < len {
            let mut pad = silence(len - have);
            self.decoded_buffer.append(&mut pad);
            self.concealed_total = Ghost((self.concealed_total@ + (len - have)) as nat);
        }
        assert(ended || have >= len ==> self.scratch() =~= sc);
        assert(!ended ==> self.scratch() =~= padded(sc, len as nat));
        let count = if ended { self.decoded_buffer.len() - self.decoded_pos } else { len };
        let mut out: Vec<i16> = Vec::new();
        let pos = self.decoded_pos;
        let mut k: usize = 0;
        while k < count
            invariant
                k <= count,
                pos + count <= self.decoded_buffer.len(),
                out@ == self.decoded_buffer@.subrange(pos as int, pos + k),
            decreases count - k,
        {
            out.push(self.decoded_buffer[pos + k]);
            k = k + 1;
            assert(out@ =~= self.decoded_buffer@.subrange(pos as int, pos + k));
        }
        let ghost all = self.scratch();
        self.decoded_pos = pos + count;
        proof {
            assert(out@ =~= all.subrange(0, count as int));
            assert(self.scratch() =~= all.subrange(count as int, all.len() as int));
        }
        self.emitted_total = Ghost((self.emitted_total@ + count) as nat);
        out
    }

    /// Gain in percent applied when mixing.
    pub fn volume(&self) -> (r: u16)
        ensures
            r == self.gain(),
    {
        self.volume
    }

    /// Sets the gain in percent applied when mixing.
    pub fn set_volume(&mut self, volume: u16)
        requires
            old(self).wf(),
        ensures
            final(self).wf(),
            final(self).gain() == volume,
            final(self).packets() == old(self).packets(),
            final(self).next_id() == old(self).next_id(),
            final(self).buffered() == old(self).buffered(),
            final(self).scratch() == old(self).scratch(),
            final(self).pending() == old(self).pending(),
            final(self).loss_count() == old(self).loss_count(),
            final(self).last_frame() == old(self).last_frame(),
            final(self).size_history() == old(self).size_history(),
            final(self).prebuffer() == old(self).prebuffer(),
            final(self).prebuffered_for() == old(self).prebuffered_for(),
            final(self).stopped() == old(self).stopped(),
            final(self).emitted_count() == old(self).emitted_count(),
            final(self).decoded_count() == old(self).decoded_count(),
            final(self).concealed_count() == old(self).concealed_count(),
            final(self).dropped_count() == old(self).dropped_count(),
    {
        self.volume = volume;
    }

    /// Consecutive decodes that were a loss.
    pub fn packet_loss_num(&self) -> (r: usize)
        ensures
            r == self.loss_count(),
    {
        self.packet_loss_num
    }

    /// The sequence number expected next.
    pub fn next_sequence(&self) -> (r: u16)
        ensures
            r == self.next_id(),
    {
        self.next_id
    }

    /// Samples per channel of the queued packets.
    pub fn buffered_samples(&self) -> (r: usize)
        ensures
            r == self.buffered(),
    {
        self.packet_buffer_samples
    }

    /// Samples still to receive before the queue plays.
    pub fn buffering_samples(&self) -> (r: usize)
        ensures
            r == self.prebuffer(),
    {
        self.buffering_samples
    }

    /// Samples per channel of the most recent decode.
    pub fn last_frame_samples(&self) -> (r: usize)
        ensures
            r == self.last_frame(),
    {
        self.last_packet_samples
    }

    /// Sequence numbers of the queued packets, front first.
    pub fn queued_sequences(&self) -> (r: Vec<u16>)
        ensures
            r@ == ids_of(self.packets()),
    {
        let mut r: Vec<u16> = Vec::new();
        let mut i: usize = 0;
        while i < self.packet_buffer.len()
            invariant
                i <= self.packet_buffer@.len(),
                r@ == ids_of(self.packet_buffer@.subrange(0, i as int)),
            decreases self.packet_buffer@.len() - i,
        {
            r.push(self.packet_buffer[i].id);
            i = i + 1;
            assert(ids_of(self.packet_buffer@.subrange(0, i as int)) =~= r@);
        }
        assert(self.packet_buffer@.subrange(0, i as int) =~= self.packet_buffer@);
        r
    }

    /// Sets how many samples the queue waits for before it plays.
    pub fn set_buffering_samples(&mut self, samples: usize)
        requires
            old(self).wf(),
        ensures
            final(self).wf(),
            final(self).prebuffer() == samples,
            final(self).packets() == old(self).packets(),
            final(self).next_id() == old(self).next_id(),
            final(self).buffered() == old(self).buffered(),
            final(self).scratch() == old(self).scratch(),
            final(self).loss_count() == old(self).loss_count(),
            final(self).last_frame() == old(self).last_frame(),
            final(self).size_history() == old(self).size_history(),
            final(self).pending() == old(self).pending(),
            final(self).stopped() == old(self).stopped(),
            final(self).gain() == old(self).gain(),
            final(self).prebuffered_for() == old(self).prebuffered_for(),
            final(self).emitted_count() == old(self).emitted_count(),
            final(self).decoded_count() == old(self).decoded_count(),
            final(self).concealed_count() == old(self).concealed_count(),
            final(self).dropped_count() == old(self).dropped_count(),
    {
        self.buffering_samples = samples;
    }

    /// Records a buffer size given in samples, as whole usual frames.
    fn add_buffer_size(&mut self, size: usize)
        requires
            old(self).wf(),
        ensures
            final(self).wf(),
            final(self).size_history() == if size / USUAL_FRAME_SIZE <= 255 {
                old(self).size_history().push((size / USUAL_FRAME_SIZE) as u8)
            } else {
                old(self).size_history()
            },
            final(self).packets() == old(self).packets(),
            final(self).next_id() == old(self).next_id(),
            final(self).buffered() == old(self).buffered(),
            final(self).scratch() == old(self).scratch(),
            final(self).decoded_buffer == old(self).decoded_buffer,
            final(self).decoded_pos == old(self).decoded_pos,
            final(self).last_packet_samples == old(self).last_packet_samples,
            final(self).packet_loss_num == old(self).packet_loss_num,
            final(self).buffering_samples == old(self).buffering_samples,
            final(self).buffered_for_samples == old(self).buffered_for_samples,
            final(self).pending == old(self).pending,
            final(self).stopped == old(self).stopped,
            final(self).volume == old(self).volume,
            final(self).decoded_total == old(self).decoded_total,
            final(self).concealed_total == old(self).concealed_total,
            final(self).dropped_total == old(self).dropped_total,
            final(self).emitted_total == old(self).emitted_total,
    {
        let frames = size / USUAL_FRAME_SIZE;
        if frames <= 255 {
            let v = frames as u8;
            let ghost h = self.last_buffer_size_min.history();
            self.last_buffer_size_min.push(v);
            self.last_buffer_size_max.push(255 - v);
            assert(self.last_buffer_size_max.history() =~= self.last_buffer_size_min.history().map_values(
                |v: u8| (255 - v) as u8,
            ));
        }
    }

    /// Smallest buffer size, in usual frames, over the recent decodes.
    pub fn min_buffer_size(&self) -> (r: u8)
        requires
            self.wf(),
        ensures
            r == seq_min(crate::window::window_of(self.size_history(), LAST_BUFFER_SIZE_COUNT as nat)),
    {
        self.last_buffer_size_min.get_min()
    }

    /// The spread between the largest and smallest recent buffer size.
    pub fn get_deviation(&self) -> (r: u8)
        requires
            self.wf(),
        ensures
            r == recent_max(self.size_history()) - seq_min(
                crate::window::window_of(self.size_history(), LAST_BUFFER_SIZE_COUNT as nat),
            ),
    {
        let min = self.last_buffer_size_min.get_min();
        let rev = self.last_buffer_size_max.get_min();
        proof {
            let w = crate::window::window_of(self.size_history(), 255);
            let wr = crate::window::window_of(self.last_buffer_size_max.history(), 255);
            assert(wr =~= w.map_values(|v: u8| (255 - v) as u8));
            crate::window::lemma_seq_min(w);
            crate::window::lemma_seq_min(wr);
            assert(w.len() > 0);
            let k = choose|k: int| 0 <= k < wr.len() && wr[k] == seq_min(wr);
            assert(min <= w[k]);
        }
        255 - rev - min
    }
}

/// What `add_packet` returns for a packet with `len` payload bytes.
pub open spec fn add_packet_result(pb: Seq<QueuePacket>, next: u16, id: u16, len: nat, samples: Option<usize>) -> Result<(), Error> {
    if pb.len() >= MAX_BUFFER_PACKETS {
        Err(Error::QueueFull)
    } else if len > 1 && samples is None {
        Err(Error::GetPacketSample)
    } else if len > 1 && samples->Some_0 > MAX_BUFFER_SIZE {
        Err(Error::TooManySamples)
    } else if ahead(id, next) > MAX_BUFFER_PACKETS {
        Err(Error::TooLate { wanted: next, got: id })
    } else if exists|k: int| 0 <= k < pb.len() && (#[trigger] pb[k]).id == id {
        Err(Error::Duplicate(id))
    } else {
        Ok(())
    }
}

/// Prebuffer left after queuing a packet of `samples` samples: a packet past the
/// current back counts, and so does each missing packet before it, at `last`.
pub open spec fn prebuffer_after(pre: nat, pb: Seq<QueuePacket>, next: u16, id: u16, samples: nat, last: nat) -> nat {
    if pb.len() == 0 {
        sat_sub(pre, samples)
    } else if ahead(id, next) > ahead(pb.last().id, next) {
        sat_sub(sat_sub(pre, samples), ((ahead(id, next) - ahead(pb.last().id, next) - 1) * last) as nat)
    } else {
        pre
    }
}

pub open spec fn sat_sub(a: nat, b: nat) -> nat {
    if a >= b { (a - b) as nat } else { 0 }
}

/// Inserting a packet at its sorted place keeps the queue's invariants.
proof fn lemma_insert_ordered(pb: Seq<QueuePacket>, i: int, entry: QueuePacket, next: u16)
    requires
        0 <= i <= pb.len(),
        ordered_from(pb, next),
        forall|k: int| 0 <= k < pb.len() ==> (#[trigger] pb[k]).samples <= MAX_BUFFER_SIZE,
        forall|k: int| 0 <= k < pb.len() && is_end_marker(#[trigger] pb[k]) ==> pb[k].samples == 0,
        entry.samples <= MAX_BUFFER_SIZE,
        is_end_marker(entry) ==> entry.samples == 0,
        ahead(entry.id, next) <= MAX_BUFFER_PACKETS,
        forall|j: int| 0 <= j < i ==> ahead(#[trigger] pb[j].id, next) < ahead(entry.id, next),
        forall|j: int| i <= j < pb.len() ==> ahead(#[trigger] pb[j].id, next) > ahead(entry.id, next),
    ensures
        ordered_from(pb.insert(i, entry), next),
        forall|k: int| 0 <= k < pb.len() + 1 ==> (#[trigger] pb.insert(i, entry)[k]).samples <= MAX_BUFFER_SIZE,
        forall|k: int| 0 <= k < pb.len() + 1 && is_end_marker(#[trigger] pb.insert(i, entry)[k])
            ==> pb.insert(i, entry)[k].samples == 0,
{
    let nb = pb.insert(i, entry);
    assert forall|k: int| 0 <= k < nb.len() implies (#[trigger] nb[k]).samples <= MAX_BUFFER_SIZE
        && (is_end_marker(nb[k]) ==> nb[k].samples == 0) && ahead(nb[k].id, next)
        <= MAX_BUFFER_PACKETS by {
        if k < i {
            assert(nb[k] == pb[k]);
        } else if k > i {
            assert(nb[k] == pb[k - 1]);
        }
    }
    assert forall|a: int, b: int| 0 <= a < b < nb.len() implies ahead(#[trigger] nb[a].id, next)
        < ahead(#[trigger] nb[b].id, next) by {
        if b < i {
            assert(nb[a] == pb[a] && nb[b] == pb[b]);
        } else if a > i {
            assert(nb[a] == pb[a - 1] && nb[b] == pb[b - 1]);
        } else if a == i {
            assert(nb[b] == pb[b - 1]);
        } else if b == i {
            assert(nb[a] == pb[a]);
        } else {
            assert(nb[a] == pb[a] && nb[b] == pb[b - 1]);
        }
    }
}

/// The packets before position `i` are exactly those ahead of which `id` lies.
proof fn lemma_insert_pos(s: Seq<QueuePacket>, next: u16, id: u16, i: int)
    requires
        0 <= i <= s.len(),
        forall|j: int| 0 <= j < i ==> ahead(#[trigger] s[j].id, next) < ahead(id, next),
        forall|j: int| i <= j < s.len() ==> ahead(#[trigger] s[j].id, next) >= ahead(id, next),
    ensures
        insert_pos(s, next, id) == i,
    decreases s.len(),
{
    if s.len() > 0 {
        let r = s.drop_last();
        if i == s.len() {
            lemma_insert_pos(r, next, id, i - 1);
        } else {
            lemma_insert_pos(r, next, id, i);
        }
        assert(r.len() < s.len());
    }
}

/// Stereo samples dropped among the first `j` of a frame when `cut` are dropped
/// in all: those at multiples of `SPEED_CHANGE_STEPS` below `cut` of them.
pub open spec fn is_dropped(j: nat, cut: nat) -> bool {
    j % (SPEED_CHANGE_STEPS as nat) == 0 && j < cut * SPEED_CHANGE_STEPS
}

/// The first `j` stereo samples of `frame`, without the dropped ones.
pub open spec fn sped_up(frame: Seq<i16>, j: nat, cut: nat) -> Seq<i16>
    decreases j,
{
    if j == 0 {
        Seq::empty()
    } else {
        let prev = sped_up(frame, (j - 1) as nat, cut);
        if is_dropped((j - 1) as nat, cut) {
            prev
        } else {
            prev + frame.subrange(2 * (j - 1), 2 * (j - 1) + 2)
        }
    }
}

/// Number of dropped stereo samples among the first `j`.
pub open spec fn dropped_before(j: nat, cut: nat) -> nat
    decreases j,
{
    if j == 0 {
        0
    } else {
        dropped_before((j - 1) as nat, cut) + if is_dropped((j - 1) as nat, cut) { 1nat } else { 0nat }
    }
}

pub proof fn lemma_sped_up_len(frame: Seq<i16>, j: nat, cut: nat)
    requires
        2 * j <= frame.len(),
    ensures
        sped_up(frame, j, cut).len() == 2 * (j - dropped_before(j, cut)),
        dropped_before(j, cut) <= j,
    decreases j,
{
    if j > 0 {
        lemma_sped_up_len(frame, (j - 1) as nat, cut);
    }
}

/// Dropping one stereo sample in `SPEED_CHANGE_STEPS` drops `j / SPEED_CHANGE_STEPS`
/// of a frame of `j`.
pub proof fn lemma_dropped_count(j: nat, cut: nat)
    ensures
        dropped_before(j, cut) == if j <= cut * 100 { (j + 99) / 100 } else { cut },
    decreases j,
{
    if j > 0 {
        let i = (j - 1) as nat;
        lemma_dropped_count(i, cut);
        if i < cut * 100 {
            if i % 100 == 0 {
                assert((i + 99) / 100 == i / 100) by (nonlinear_arith) requires i % 100 == 0;
                assert((i + 100) / 100 == i / 100 + 1) by (nonlinear_arith);
            } else {
                assert((i + 99) / 100 == (i + 100) / 100) by (nonlinear_arith) requires i % 100 != 0;
            }
        } else {
            if i == cut * 100 {
                assert((i + 99) / 100 == cut) by (nonlinear_arith) requires i == cut * 100;
            }
        }
    }
}

/// Samples a queue holds, counting each missing packet up to the last one at `last`.
pub open spec fn occupancy(pb: Seq<QueuePacket>, next: u16, last: nat) -> nat {
    if pb.len() == 0 {
        0
    } else {
        sum_samples(pb) + ((ahead(pb.last().id, next) + 1 - pb.len()) * last) as nat
    }
}

/// Ascending offsets from `next` grow at least by one per packet.
pub proof fn lemma_offsets_grow(s: Seq<QueuePacket>, next: u16)
    requires
        ordered_from(s, next),
    ensures
        forall|k: int| 0 <= k < s.len() ==> ahead(#[trigger] s[k].id, next) >= k,
    decreases s.len(),
{
    if s.len() > 0 {
        let r = s.drop_last();
        assert(ordered_from(r, next)) by {
            assert forall|k: int| 0 <= k < r.len() implies ahead(#[trigger] r[k].id, next) <= MAX_BUFFER_PACKETS by {
                assert(r[k] == s[k]);
            }
            assert forall|a: int, b: int| 0 <= a < b < r.len() implies ahead(#[trigger] r[a].id, next)
                < ahead(#[trigger] r[b].id, next) by {
                assert(r[a] == s[a] && r[b] == s[b]);
            }
        }
        lemma_offsets_grow(r, next);
        assert forall|k: int| 0 <= k < s.len() implies ahead(#[trigger] s[k].id, next) >= k by {
            if k < s.len() - 1 {
                assert(r[k] == s[k]);
            } else if k > 0 {
                assert(r[k - 1] == s[k - 1]);
                assert(ahead(s[k - 1].id, next) < ahead(s[k].id, next));
            }
        }
    }
}

pub open spec fn sat_add(a: nat, b: nat) -> nat {
    if a + b > usize::MAX { usize::MAX as nat } else { a + b }
}

/// The step that `next_step` takes, and the packets, expected sequence number
/// and pending decode it leaves.
pub open spec fn next_step_spec(
    pb: Seq<QueuePacket>,
    next: u16,
    last: nat,
    enough: bool,
    r: TakeStep,
    pb2: Seq<QueuePacket>,
    next2: u16,
    pending: Option<PendingDecode>,
) -> bool {
    if enough {
        r is Ready && pb2 == pb && next2 == next && pending is None
    } else if pb.len() == 0 {
        &&& r matches TakeStep::Decode(req) && req.packet is None && !req.fec && req.samples == last
        &&& pb2 == pb && next2 == next
        &&& pending == Some(PendingDecode { has_packet: false, fec: false, samples: last as usize, requeued: false })
    } else if is_end_marker(pb[0]) {
        r is Ended && pb2 == pb.subrange(1, pb.len() as int) && next2 == next && pending is None
    } else if pb[0].id == next {
        &&& r matches TakeStep::Decode(req) && req.packet matches Some(v) && v@ == pb[0].packet@
            && !req.fec && req.samples == pb[0].samples
        &&& pb2 == pb.subrange(1, pb.len() as int)
        &&& next2 == vstd::wrapping::u16_specs::wrapping_add(next, 1)
        &&& pending == Some(PendingDecode { has_packet: true, fec: false, samples: pb[0].samples, requeued: false })
    } else if pb[0].id == vstd::wrapping::u16_specs::wrapping_add(next, 1) {
        &&& r matches TakeStep::Decode(req) && req.packet matches Some(v) && v@ == pb[0].packet@
            && req.fec && req.samples == pb[0].samples
        &&& pb2 == pb
        &&& next2 == vstd::wrapping::u16_specs::wrapping_add(next, 1)
        &&& pending == Some(PendingDecode { has_packet: true, fec: true, samples: pb[0].samples, requeued: true })
    } else {
        &&& r matches TakeStep::Decode(req) && req.packet is None && !req.fec && req.samples == last
        &&& pb2 == pb
        &&& next2 == vstd::wrapping::u16_specs::wrapping_add(next, 1)
        &&& pending == Some(PendingDecode { has_packet: false, fec: false, samples: last as usize, requeued: true })
    }
}

/// A copy of the bytes.
fn copy_bytes(v: &Vec<u8>) -> (r: Vec<u8>)
    ensures
        r@ == v@,
{
    let mut r: Vec<u8> = Vec::new();
    let mut i: usize = 0;
    while i < v.len()
        invariant
            i <= v.len(),
            r@ == v@.subrange(0, i as int),
        decreases v.len() - i,
    {
        r.push(v[i]);
        i = i + 1;
        assert(r@ =~= v@.subrange(0, i as int));
    }
    assert(r@ =~= v@);
    r
}

proof fn lemma_ordered_drop_first(s: Seq<QueuePacket>, next: u16)
    requires
        s.len() > 0,
        ordered_from(s, next),
    ensures
        ordered_from(s.subrange(1, s.len() as int), next),
        forall|k: int| 0 <= k < s.len() - 1 ==> #[trigger] s.subrange(1, s.len() as int)[k] == s[k + 1],
        forall|k: int| 0 <= k < s.len() - 1 ==> ahead(#[trigger] s.subrange(1, s.len() as int)[k].id, next)
            > ahead(s[0].id, next),
{
    let r = s.subrange(1, s.len() as int);
    assert forall|k: int| 0 <= k < r.len() implies ahead(#[trigger] r[k].id, next) <= MAX_BUFFER_PACKETS
        && ahead(r[k].id, next) > ahead(s[0].id, next) by {
        assert(r[k] == s[k + 1]);
    }
    assert forall|a: int, b: int| 0 <= a < b < r.len() implies ahead(#[trigger] r[a].id, next)
        < ahead(#[trigger] r[b].id, next) by {
        assert(r[a] == s[a + 1] && r[b] == s[b + 1]);
    }
}

/// Moving the expected sequence number one on keeps packets that were at least
/// one ahead in order.
proof fn lemma_shift_next(s: Seq<QueuePacket>, next: u16)
    requires
        ordered_from(s, next),
        forall|k: int| 0 <= k < s.len() ==> ahead(#[trigger] s[k].id, next) >= 1,
    ensures
        ordered_from(s, vstd::wrapping::u16_specs::wrapping_add(next, 1)),
        forall|k: int| 0 <= k < s.len() ==> ahead(#[trigger] s[k].id, vstd::wrapping::u16_specs::wrapping_add(next, 1))
            == ahead(s[k].id, next) - 1,
{
    let n1 = vstd::wrapping::u16_specs::wrapping_add(next, 1);
    assert forall|k: int| 0 <= k < s.len() implies ahead(#[trigger] s[k].id, n1) == ahead(s[k].id, next) - 1 by {
        assert(ahead(s[k].id, next) >= 1);
    }
    assert forall|a: int, b: int| 0 <= a < b < s.len() implies ahead(#[trigger] s[a].id, n1)
        < ahead(#[trigger] s[b].id, n1) by {
        assert(ahead(s[a].id, n1) == ahead(s[a].id, next) - 1);
        assert(ahead(s[b].id, n1) == ahead(s[b].id, next) - 1);
    }
}

/// The size history after observing `count` samples of occupancy.
pub open spec fn push_size(h: Seq<u8>, count: nat) -> Seq<u8> {
    if count / (USUAL_FRAME_SIZE as nat) <= 255 {
        h.push((count / (USUAL_FRAME_SIZE as nat)) as u8)
    } else {
        h
    }
}

/// Truncation keeps the longest run of packets at the back holding fewer than
/// `min + 1` usual frames, and moves the expected sequence number to its front.
pub open spec fn truncated(pb: Seq<QueuePacket>, next: u16, min: nat, pb2: Seq<QueuePacket>, next2: u16) -> bool {
    let limit = (min + 1) * (USUAL_FRAME_SIZE as nat);
    exists|keep: int| {
        &&& 0 <= keep <= pb.len()
        &&& pb2 == #[trigger] pb.subrange(pb.len() - keep, pb.len() as int)
        &&& sum_samples(pb2) < limit
        &&& (keep == pb.len() || sum_samples(pb.subrange(pb.len() - keep - 1, pb.len() as int)) >= limit)
        &&& next2 == if keep > 0 { pb2[0].id } else { next }
    }
}

proof fn lemma_suffix_ordered(s: Seq<QueuePacket>, next: u16, j: int)
    requires
        0 <= j < s.len(),
        ordered_from(s, next),
    ensures
        ordered_from(s.subrange(j, s.len() as int), s[j].id),
{
    let r = s.subrange(j, s.len() as int);
    assert forall|k: int| 0 <= k < r.len() implies ahead(#[trigger] r[k].id, s[j].id) <= MAX_BUFFER_PACKETS
        && ahead(r[k].id, s[j].id) == ahead(r[k].id, next) - ahead(s[j].id, next) by {
        assert(r[k] == s[j + k]);
        if k > 0 {
            assert(ahead(s[j].id, next) < ahead(s[j + k].id, next));
        }
    }
    assert forall|a: int, b: int| 0 <= a < b < r.len() implies ahead(#[trigger] r[a].id, s[j].id)
        < ahead(#[trigger] r[b].id, s[j].id) by {
        assert(r[a] == s[j + a] && r[b] == s[j + b]);
    }
}

proof fn lemma_sum_suffix_le(s: Seq<QueuePacket>, j: int)
    requires
        0 <= j <= s.len(),
    ensures
        sum_samples(s.subrange(j, s.len() as int)) <= sum_samples(s),
    decreases j,
{
    if j > 0 {
        let r = s.subrange(1, s.len() as int);
        lemma_sum_suffix_le(r, j - 1);
        assert(r.subrange(j - 1, r.len() as int) =~= s.subrange(j, s.len() as int));
    } else {
        assert(s.subrange(0, s.len() as int) =~= s);
    }
}

/// The decoder's result is whole stereo samples within the requested count.
pub open spec fn decode_ok(result: Option<Vec<i16>>, expected: nat) -> bool {
    result matches Some(v) && v@.len() % 2 == 0 && v@.len() <= 2 * expected
}

/// `k` samples of silence.
pub open spec fn zeros(k: nat) -> Seq<i16> {
    Seq::new(k, |i: int| 0i16)
}

/// The samples a decode adds: its result when valid, else silence.
pub open spec fn frame_of(result: Option<Vec<i16>>, expected: nat) -> Seq<i16> {
    if decode_ok(result, expected) {
        result->Some_0@
    } else {
        zeros(2 * expected)
    }
}

/// `s` filled up with silence to at least `len` samples.
pub open spec fn padded(s: Seq<i16>, len: nat) -> Seq<i16> {
    if s.len() >= len {
        s
    } else {
        s + zeros((len - s.len()) as nat)
    }
}

/// How `complete_decode` changes the queue `a` into `b`.
pub open spec fn complete_spec(a: AudioQueue, result: Option<Vec<i16>>, b: AudioQueue) -> bool {
    let p = a.pending()->Some_0;
    let frame = frame_of(result, p.samples as nat);
    let ok = decode_ok(result, p.samples as nat);
    let n = (frame.len() / 2) as nat;
    let h = b.size_history();
    let mn = seq_min(crate::window::window_of(h, LAST_BUFFER_SIZE_COUNT as nat));
    let truncates = n > 0 && mn > MAX_BUFFER_SIZE / USUAL_FRAME_SIZE;
    let speeds = n > 0 && !truncates && mn > recent_max(h) - mn;
    let aside = if p.requeued { a.packets().subrange(1, a.packets().len() as int) } else { a.packets() };
    &&& b.last_frame() == if ok { n } else { a.last_frame() }
    &&& b.loss_count() == if ok && p.has_packet && !p.fec { 0 } else { sat_add(a.loss_count(), 1) }
    &&& h == push_size(a.size_history(), occupancy(aside, a.next_id(), b.last_frame()))
    &&& b.stopped() == (n == 0)
    &&& if truncates {
        truncated(a.packets(), a.next_id(), mn as nat, b.packets(), b.next_id())
    } else {
        b.packets() == a.packets() && b.next_id() == a.next_id()
    }
    &&& b.scratch() == a.scratch() + if speeds { sped_up(frame, n, n / (SPEED_CHANGE_STEPS as nat)) } else { frame }
    &&& b.decoded_count() == a.decoded_count() + if ok && p.has_packet && !p.fec { frame.len() } else { 0 }
    &&& b.concealed_count() == a.concealed_count() + if ok && p.has_packet && !p.fec { 0 } else { frame.len() }
    &&& b.dropped_count() == a.dropped_count() + if speeds { 2 * (n / (SPEED_CHANGE_STEPS as nat)) } else { 0 }
}

/// `k` samples of silence.
fn silence(k: usize) -> (r: Vec<i16>)
    ensures
        r@ == zeros(k as nat),
{
    let mut r: Vec<i16> = Vec::new();
    let mut i: usize = 0;
    while i < k
        invariant
            i <= k,
            r@ == zeros(i as nat),
        decreases k - i,
    {
        r.push(0);
        i = i + 1;
        assert(r@ =~= zeros(i as nat));
    }
    r
}

/// Packets stand in ascending wrapping order: each later one is between 1 and
/// `MAX_BUFFER_PACKETS` sequence numbers after each earlier one.
pub open spec fn ids_ascending(s: Seq<QueuePacket>) -> bool {
    forall|a: int, b: int|
        0 <= a < b < s.len() ==> 1 <= ahead(#[trigger] s[b].id, #[trigger] s[a].id) <= MAX_BUFFER_PACKETS
}

/// Every queue, and so every queue that `add_packet` returns, holds its packets
/// in ascending wrapping order.
pub proof fn lemma_sorted(q: &AudioQueue)
    requires
        q.wf(),
    ensures
        ids_ascending(q.packets()),
{
    let s = q.packets();
    assert forall|a: int, b: int| 0 <= a < b < s.len() implies 1 <= ahead(#[trigger] s[b].id, #[trigger] s[a].id)
        <= MAX_BUFFER_PACKETS by {
        assert(ahead(s[a].id, q.next_id()) < ahead(s[b].id, q.next_id()));
        assert(ahead(s[b].id, q.next_id()) <= MAX_BUFFER_PACKETS);
    }
}

/// While speeding up, a decode of `n` stereo samples adds `n - n / 100` of them
/// to what the queue has decoded: one in `SPEED_CHANGE_STEPS` is dropped.
pub proof fn lemma_speed_up_drops(a: AudioQueue, result: Option<Vec<i16>>, b: AudioQueue)
    requires
        a.pending() is Some,
        a.pending()->Some_0.samples <= MAX_BUFFER_SIZE,
        complete_spec(a, result, b),
        ({
            let h = b.size_history();
            let mn = seq_min(crate::window::window_of(h, LAST_BUFFER_SIZE_COUNT as nat));
            let n = frame_of(result, a.pending()->Some_0.samples as nat).len() / 2;
            n > 0 && mn <= MAX_BUFFER_SIZE / USUAL_FRAME_SIZE && mn > recent_max(h) - mn
        }),
    ensures
        ({
            let n = (frame_of(result, a.pending()->Some_0.samples as nat).len() / 2) as nat;
            b.scratch().len() == a.scratch().len() + 2 * (n - n / 100)
        }),
{
    let frame = frame_of(result, a.pending()->Some_0.samples as nat);
    let n = (frame.len() / 2) as nat;
    if decode_ok(result, a.pending()->Some_0.samples as nat) {
        assert(frame.len() % 2 == 0);
    } else {
        assert(frame.len() == 2 * a.pending()->Some_0.samples);
    }
    assert(2 * n == frame.len());
    lemma_sped_up_len(frame, n, n / 100);
    lemma_dropped_count(n, n / 100);
    assert(n <= (n / 100) * 100 ==> (n + 99) / 100 == n / 100) by (nonlinear_arith);
    assert(n >= (n / 100) * 100) by (nonlinear_arith);
}

/// A take returns no more than `len` samples, and exactly `len` unless its
/// stream ended: `finish_take` hands out `out` from a queue in state `q`, and
/// an end is only reported while fewer than `len` samples are decoded.
pub proof fn lemma_take_length(q: AudioQueue, len: nat, ended: bool, out: Seq<i16>)
    requires
        ended ==> q.scratch().len() < len,
        out == if ended { q.scratch() } else { padded(q.scratch(), len).subrange(0, len as int) },
    ensures
        out.len() <= len,
        !ended ==> out.len() == len,
{
}

/// What every queue holds: its sample total, ascending packets within
/// `MAX_BUFFER_PACKETS` of the expected sequence number, at most
/// `MAX_BUFFER_PACKETS` packets of at most `MAX_BUFFER_SIZE` samples each.
pub proof fn lemma_queue_facts(q: &AudioQueue)
    requires
        q.wf(),
    ensures
        q.buffered() == sum_samples(q.packets()),
        ordered_from(q.packets(), q.next_id()),
        q.packets().len() <= MAX_BUFFER_PACKETS,
        forall|k: int| 0 <= k < q.packets().len() ==> (#[trigger] q.packets()[k]).samples <= MAX_BUFFER_SIZE,
{
}

/// Samples handed out plus those waiting equal the samples decoded from
/// payloads plus those synthesized, less those dropped by speed-up.
pub proof fn lemma_sample_balance(q: &AudioQueue)
    requires
        q.wf(),
    ensures
        q.emitted_count() + q.scratch().len() == q.decoded_count() + q.concealed_count() - q.dropped_count(),
{
}

/// Where nothing was synthesized or dropped, samples handed out plus those
/// waiting equal exactly the samples decoded from payloads.
pub proof fn lemma_in_order_balance(q: &AudioQueue)
    requires
        q.wf(),
        q.concealed_count() == 0,
        q.dropped_count() == 0,
    ensures
        q.emitted_count() + q.scratch().len() == q.decoded_count(),
{
}

/// The largest of the recent buffer sizes.
pub open spec fn recent_max(h: Seq<u8>) -> u8 {
    (255 - seq_min(crate::window::window_of(h, LAST_BUFFER_SIZE_COUNT as nat).map_values(
        |v: u8| (255 - v) as u8,
    ))) as u8
}

} // verus!
