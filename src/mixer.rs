//! Mixer: one jitter queue per speaker, summed into a shared buffer.
//!
//! A fill pass walks the queues in turn. Where a queue needs a decode, the
//! pass stops and hands the request out; the caller decodes and resumes the
//! pass with the result.
use vstd::prelude::*;
use crate::queue::{
    AudioQueue, DecodeRequest, Error, TakeStep, LAST_BUFFER_SIZE_COUNT, MAX_BUFFER_TIME, MAX_PACKET_LOSSES,
    USUAL_FRAME_SIZE,
    next_step_spec, complete_spec, padded, is_end_marker,
};
use crate::window::{seq_min, window_of};

verus! {

/// A speaker's queue.
pub struct Talker {
    pub id: u64,
    pub queue: AudioQueue,
}

/// The next thing a fill pass needs.
pub enum FillStep {
    /// Decode for the speaker `id` and resume the pass with the result.
    Decode { id: u64, request: DecodeRequest },
    /// The pass is over; these speakers stopped talking and were removed.
    Finished(Vec<u64>),
}

/// A talker's part in a fill pass: its kind (`VISIT_LOST`, `VISIT_WAITING`,
/// `VISIT_PLAYED` or `VISIT_ENDED`), the samples its take returned, its gain,
/// the queue as the take's last step found it, and whether that step was the
/// take's first (no decode happened for it).
pub type Visit = (u8, Seq<i16>, u16, AudioQueue, bool);

/// The queue counted as lost: skipped, and removed.
pub const VISIT_LOST: u8 = 0;
/// The queue was still prebuffering: it gave nothing.
pub const VISIT_WAITING: u8 = 1;
/// The queue gave a full take.
pub const VISIT_PLAYED: u8 = 2;
/// The queue's stream ended: what it had was mixed, and it was removed.
pub const VISIT_ENDED: u8 = 3;

/// Handles incoming audio, with one queue per speaker.
pub struct AudioHandler {
    /// The talkers in arrival order, ids unique. A pass mixes them in this
    /// order: sums are clamped, so the order is part of the result.
    queues: Vec<Talker>,
    /// Samples that new queues buffer before they start to play.
    avg_buffer_samples: usize,
    /// Gain in percent given to new queues.
    volume: u16,
    filling: bool,
    fill_len: usize,
    cursor: usize,
    started: bool,
    to_remove: Vec<u64>,
    /// The talkers when the current or last pass began.
    start: Ghost<Seq<Talker>>,
    /// One entry for each talker the pass has dealt with, in order.
    visits: Ghost<Seq<Visit>>,
    /// The queue at the cursor before the step that asked for the last decode.
    step_from: Ghost<AudioQueue>,
    /// The queue at the cursor after it took the last decode result.
    last_completed: Ghost<AudioQueue>,
}

/// The queue waits for more samples before it plays.
pub open spec fn gate_closed(q: AudioQueue) -> bool {
    q.prebuffer() > 0 && q.prebuffered_for() < MAX_BUFFER_TIME
}

/// The queue's front packet is an end marker.
pub open spec fn ends_at_front(q: AudioQueue) -> bool {
    q.packets().len() > 0 && is_end_marker(q.packets()[0])
}

/// A take step on `q` finds enough decoded: `len` samples, or, after a
/// decode, a decode that produced nothing.
pub open spec fn take_enough(q: AudioQueue, len: nat, first: bool) -> bool {
    q.scratch().len() >= len || (!first && q.stopped())
}

/// The queue's take is over without a decode: it needs none, or its stream
/// ends right away.
pub open spec fn no_decode_or_end(q: AudioQueue, len: nat) -> bool {
    needs_no_decode(q, len) || ends_at_front(q)
}

/// The talkers from `from` on that the pass recorded were each dealt with in
/// their take's first step: none needed a decode.
pub open spec fn passed_without_decode(start: Seq<Talker>, visits: Seq<Visit>, from: int, len: nat) -> bool {
    forall|j: int| from <= j < visits.len() ==> no_decode_or_end((#[trigger] start[j]).queue, len) && visits[j].4
}

/// `v` is what a pass may record for a queue that stood as `s` when the pass
/// began, taking `len` samples. A played queue gives its first `len` decoded
/// samples (filled with silence where a decode produced nothing); an ended one
/// gives all it had decoded, and only when an end marker stood at its front.
pub open spec fn visit_ok(s: AudioQueue, v: Visit, len: nat) -> bool {
    &&& v.2 == s.gain()
    &&& v.0 <= VISIT_ENDED
    &&& (v.0 == VISIT_LOST) == (s.loss_count() >= MAX_PACKET_LOSSES)
    &&& (v.0 == VISIT_WAITING) == (s.loss_count() < MAX_PACKET_LOSSES && gate_closed(s))
    &&& v.0 <= VISIT_WAITING ==> v.1.len() == 0
    &&& v.0 >= VISIT_PLAYED ==> (v.4 ==> v.3 == s) && (!v.4 ==> !no_decode_or_end(s, len))
    &&& v.0 == VISIT_PLAYED ==> take_enough(v.3, len, v.4) && v.1 == padded(v.3.scratch(), len).subrange(0, len as int)
    &&& v.0 == VISIT_ENDED ==> !take_enough(v.3, len, v.4) && ends_at_front(v.3) && v.1 == v.3.scratch()
}

/// The smallest recent buffer size of a queue, in usual frames.
pub open spec fn min_size(q: AudioQueue) -> nat {
    seq_min(window_of(q.size_history(), LAST_BUFFER_SIZE_COUNT as nat)) as nat
}

/// Sum of the talkers' smallest recent buffer sizes.
pub open spec fn sum_mins(t: Seq<Talker>) -> nat
    decreases t.len(),
{
    if t.len() == 0 {
        0
    } else {
        sum_mins(t.drop_last()) + min_size(t.last().queue)
    }
}

/// The prebuffer that a new queue gets beside `talkers`: a usual frame plus
/// the mean of their smallest recent sizes, or `avg` where there are none.
pub open spec fn next_avg(talkers: Seq<Talker>, avg: nat) -> nat {
    if talkers.len() > 0 {
        USUAL_FRAME_SIZE as nat + sum_mins(talkers) / talkers.len()
    } else {
        avg
    }
}

/// A talker whose queue counted as lost when a pass began gives nothing to
/// the mix, and is removed and listed as removed when the pass is over.
pub proof fn lemma_lost_removed(h: &AudioHandler, removed: Seq<u64>, j: int)
    requires
        h.pass_done(removed),
        0 <= j < h.pass_start().len(),
        h.pass_start()[j].queue.loss_count() >= MAX_PACKET_LOSSES,
    ensures
        h.visits()[j].0 == VISIT_LOST,
        h.visits()[j].1.len() == 0,
        removed.contains(h.pass_start()[j].id),
        !h.has(h.pass_start()[j].id),
{
    let s = h.pass_start();
    assert(visit_ok(s[j].queue, h.visits()[j], h.fill_len()));
    assert(removed_in(s, h.visits(), s.len() as int, s[j].id));
}

/// Some talker of `s` has the id `id`.
pub open spec fn id_in(s: Seq<Talker>, id: u64) -> bool {
    exists|j: int| 0 <= j < s.len() && (#[trigger] s[j]).id == id
}

/// The queue's take needs no decode: it is lost, prebuffering, or already
/// holds `len` decoded samples.
pub open spec fn needs_no_decode(q: AudioQueue, len: nat) -> bool {
    q.loss_count() >= MAX_PACKET_LOSSES || gate_closed(q) || q.scratch().len() >= len
}

/// Among the first `n` talkers of the pass, `id` was lost or ended.
pub open spec fn removed_in(start: Seq<Talker>, visits: Seq<Visit>, n: int, id: u64) -> bool {
    exists|j: int|
        0 <= j < n && (#[trigger] start[j]).id == id && (visits[j].0 == VISIT_LOST || visits[j].0 == VISIT_ENDED)
}

/// `pcm` times `volume` percent, rounded toward zero.
pub open spec fn scale(pcm: i16, volume: u16) -> int {
    if pcm >= 0 {
        (pcm * volume) / 100
    } else {
        -(((-pcm) * volume) / 100)
    }
}

/// A mixed sample: `acc` plus `pcm` scaled by `volume` percent, clamped to `i32`.
pub open spec fn mixed(acc: i32, pcm: i16, volume: u16) -> i32 {
    let v = acc + scale(pcm, volume);
    if v > i32::MAX {
        i32::MAX
    } else if v < i32::MIN {
        i32::MIN
    } else {
        v as i32
    }
}

/// Adds `pcm`, scaled by `volume` percent, into the front of `buf`.
pub fn mix_into(buf: &mut Vec<i32>, pcm: &Vec<i16>, volume: u16)
    requires
        pcm@.len() <= old(buf)@.len(),
    ensures
        final(buf)@.len() == old(buf)@.len(),
        forall|i: int| 0 <= i < pcm@.len() ==> #[trigger] final(buf)@[i] == mixed(old(buf)@[i], pcm@[i], volume),
        forall|i: int| pcm@.len() <= i < old(buf)@.len() ==> #[trigger] final(buf)@[i] == old(buf)@[i],
        final(buf)@ == mix_seq(old(buf)@, pcm@, volume),
{
    let mut i: usize = 0;
    while i < pcm.len()
        invariant
            i <= pcm@.len(),
            pcm@.len() <= buf@.len(),
            buf@.len() == old(buf)@.len(),
            forall|j: int| 0 <= j < i ==> #[trigger] buf@[j] == mixed(old(buf)@[j], pcm@[j], volume),
            forall|j: int| i <= j < buf@.len() ==> #[trigger] buf@[j] == old(buf)@[j],
        decreases pcm@.len() - i,
    {
        let x: i64 = pcm[i] as i64;
        let g: i64 = volume as i64;
        assert(-32768 * 65535 <= x * g <= 32767 * 65535) by (nonlinear_arith)
            requires -32768 <= x <= 32767, 0 <= g <= 65535;
        let scaled: i64 = if x >= 0 {
            x * g / 100
        } else {
            let y: i64 = -x;
            assert(y * g <= 32768 * 65535) by (nonlinear_arith) requires 0 < y <= 32768, 0 <= g <= 65535;
            -(y * g / 100)
        };
        let v: i64 = buf[i] as i64 + scaled;
        let c: i32 = if v > i32::MAX as i64 {
            i32::MAX
        } else if v < i32::MIN as i64 {
            i32::MIN
        } else {
            v as i32
        };
        buf.set(i, c);
        i = i + 1;
    }
    assert(buf@ =~= mix_seq(old(buf)@, pcm@, volume));
}

/// `buf` with `pcm`, scaled by `volume` percent, added into its front.
pub open spec fn mix_seq(buf: Seq<i32>, pcm: Seq<i16>, volume: u16) -> Seq<i32> {
    Seq::new(buf.len(), |i: int| if i < pcm.len() { mixed(buf[i], pcm[i], volume) } else { buf[i] })
}

/// `buf` with each played output mixed in, in order.
pub open spec fn mix_all(buf: Seq<i32>, played: Seq<Visit>) -> Seq<i32>
    decreases played.len(),
{
    if played.len() == 0 {
        buf
    } else {
        mix_seq(mix_all(buf, played.drop_last()), played.last().1, played.last().2)
    }
}

impl AudioHandler {
    pub closed spec fn talkers(&self) -> Seq<Talker> {
        self.queues@
    }

    pub closed spec fn filling(&self) -> bool {
        self.filling
    }

    pub closed spec fn new_gain(&self) -> u16 {
        self.volume
    }

    pub closed spec fn avg_buffer(&self) -> nat {
        self.avg_buffer_samples as nat
    }

    /// Samples each talker gives in the current or last pass.
    pub closed spec fn fill_len(&self) -> nat {
        self.fill_len as nat
    }

    /// Position of the talker the pass deals with.
    pub closed spec fn cursor(&self) -> int {
        self.cursor as int
    }

    /// The talkers when the current or last pass began.
    pub closed spec fn pass_start(&self) -> Seq<Talker> {
        self.start@
    }

    /// What the pass recorded for each talker it dealt with, in order.
    pub closed spec fn visits(&self) -> Seq<Visit> {
        self.visits@
    }

    /// The queue at the cursor before the step that asked for the last decode.
    pub closed spec fn step_from(&self) -> AudioQueue {
        self.step_from@
    }

    /// The queue at the cursor right after it took the last decode result.
    pub closed spec fn last_completed(&self) -> AudioQueue {
        self.last_completed@
    }

    /// Whether a queue exists for `id`.
    pub open spec fn has(&self, id: u64) -> bool {
        exists|j: int| 0 <= j < self.talkers().len() && (#[trigger] self.talkers()[j]).id == id
    }

    /// The pass is over: each talker it began with was dealt with once, in
    /// order; `removed` lists exactly those lost or ended, and the talkers left
    /// are the others.
    pub open spec fn pass_done(&self, removed: Seq<u64>) -> bool {
        let s = self.pass_start();
        let v = self.visits();
        &&& v.len() == s.len()
        &&& forall|j: int| 0 <= j < s.len() ==> visit_ok((#[trigger] s[j]).queue, v[j], self.fill_len())
        &&& forall|id: u64| #[trigger] removed.contains(id) <==> removed_in(s, v, s.len() as int, id)
        &&& forall|id: u64| #[trigger] self.has(id) <==> (id_in(s, id)
            && !removed.contains(id))
    }

    /// The decode handed out asks for what the queue at the cursor needed next.
    pub open spec fn decode_asked(&self, id: u64, request: DecodeRequest) -> bool {
        let c = self.cursor();
        let q = self.talkers()[c].queue;
        let f = self.step_from();
        &&& self.filling()
        &&& 0 <= c < self.talkers().len()
        &&& self.talkers()[c].id == id
        &&& next_step_spec(f.packets(), f.next_id(), f.last_frame(), false, TakeStep::Decode(request),
            q.packets(), q.next_id(), q.pending())
        &&& (f == self.pass_start()[c].queue || f == self.last_completed())
    }

    pub closed spec fn pass_ok(&self) -> bool {
        let q = self.queues@;
        let s = self.start@;
        let v = self.visits@;
        let c = self.cursor as int;
        let len = self.fill_len as nat;
        &&& s.len() == q.len()
        &&& forall|j: int| 0 <= j < q.len() ==> (#[trigger] q[j]).id == s[j].id
        &&& v.len() == c
        &&& forall|j: int| 0 <= j < c ==> visit_ok((#[trigger] s[j]).queue, v[j], len)
        &&& forall|j: int| c < j < q.len() ==> #[trigger] q[j] == s[j]
        &&& (c < q.len() && !self.started) ==> q[c] == s[c]
        &&& self.started ==> {
            &&& s[c].queue.loss_count() < MAX_PACKET_LOSSES
            &&& !gate_closed(s[c].queue)
            &&& s[c].queue.scratch().len() < len
            &&& !ends_at_front(s[c].queue)
            &&& q[c].queue.gain() == s[c].queue.gain()
        }
        &&& forall|id: u64| #[trigger] self.to_remove@.contains(id) <==> removed_in(s, v, c, id)
    }

    pub closed spec fn wf(&self) -> bool {
        let q = self.queues@;
        &&& forall|j: int| 0 <= j < q.len() ==> (#[trigger] q[j]).queue.wf()
        &&& forall|j: int| 0 <= j < q.len() ==> ((#[trigger] q[j]).queue.pending() is None
            || (self.started && j == self.cursor))
        &&& forall|a: int, b: int| 0 <= a < b < q.len() ==> (#[trigger] q[a]).id != (#[trigger] q[b]).id
        &&& self.cursor <= q.len()
        &&& (self.started ==> self.filling && self.cursor < q.len())
        &&& (!self.filling ==> !self.started)
        &&& (self.filling ==> self.pass_ok())
    }

    /// No queue waits for a decode.
    pub closed spec fn idle(&self) -> bool {
        forall|j: int| 0 <= j < self.queues@.len() ==> (#[trigger] self.queues@[j]).queue.pending() is None
    }

    /// A handler without speakers.
    pub fn new() -> (r: Self)
        ensures
            r.wf(),
            !r.filling(),
            r.talkers().len() == 0,
            r.avg_buffer() == 0,
            r.new_gain() == 100,
    {
        AudioHandler {
            queues: Vec::new(),
            avg_buffer_samples: 0,
            volume: 100,
            filling: false,
            fill_len: 0,
            cursor: 0,
            started: false,
            to_remove: Vec::new(),
            start: Ghost(Seq::empty()),
            visits: Ghost(Seq::empty()),
            step_from: Ghost(arbitrary()),
            last_completed: Ghost(arbitrary()),
        }
    }

    /// Deletes all queues, and ends a pass in progress.
    pub fn reset(&mut self)
        ensures
            final(self).wf(),
            !final(self).filling(),
            final(self).talkers().len() == 0,
            final(self).avg_buffer() == old(self).avg_buffer(),
            final(self).new_gain() == old(self).new_gain(),
    {
        self.queues = Vec::new();
        self.filling = false;
        self.started = false;
        self.cursor = 0;
        self.to_remove = Vec::new();
    }

    /// Samples that a queue created now waits for before it plays.
    pub fn avg_buffer_samples(&self) -> (r: usize)
        ensures
            r == self.avg_buffer(),
    {
        self.avg_buffer_samples
    }

    /// Sets the gain in percent that queues created from now on get.
    pub fn set_volume(&mut self, volume: u16)
        requires
            old(self).wf(),
        ensures
            final(self).wf(),
            final(self).new_gain() == volume,
            final(self).talkers() == old(self).talkers(),
            final(self).filling() == old(self).filling(),
            final(self).avg_buffer() == old(self).avg_buffer(),
    {
        self.volume = volume;
    }

    /// Position of the queue for `id`, if any.
    fn find(&self, id: u64) -> (r: Option<usize>)
        ensures
            r matches Some(j) ==> j < self.talkers().len() && self.talkers()[j as int].id == id,
            r is None ==> !self.has(id),
    {
        let mut j: usize = 0;
        while j < self.queues.len()
            invariant
                j <= self.queues@.len(),
                forall|k: int| 0 <= k < j ==> (#[trigger] self.queues@[k]).id != id,
            decreases self.queues@.len() - j,
        {
            if self.queues[j].id == id {
                return Some(j);
            }
            j = j + 1;
        }
        None
    }

    /// Position of the queue for `id`.
    pub open spec fn index_of(&self, id: u64) -> int {
        choose|j: int| 0 <= j < self.talkers().len() && (#[trigger] self.talkers()[j]).id == id
    }

    /// Queues a packet of speaker `id` whose sample count per channel is
    /// `samples` (`None` where it could not be read). A speaker without a
    /// queue gets one, which waits for the current average prebuffer; its id
    /// is returned.
    pub fn handle_packet(&mut self, id: u64, sequence: u16, packet: Vec<u8>, samples: Option<usize>) -> (r: Result<Option<u64>, Error>)
        requires
            old(self).wf(),
            !old(self).filling(),
        ensures
            final(self).wf(),
            !final(self).filling(),
            r is Err ==> final(self).talkers() == old(self).talkers() && final(self).avg_buffer() == old(self).avg_buffer(),
            final(self).new_gain() == old(self).new_gain(),
            old(self).has(id) ==> ({
                let j = old(self).index_of(id);
                let q = old(self).talkers()[j].queue;
                let q2 = final(self).talkers()[j].queue;
                let expected = crate::queue::add_packet_result(q.packets(), q.next_id(), sequence, packet@.len(), samples);
                let n: nat = if packet@.len() <= 1 { 0 } else { samples->Some_0 as nat };
                &&& expected is Ok ==> r == Ok::<Option<u64>, Error>(None)
                &&& expected is Err ==> r == Err::<Option<u64>, Error>(expected->Err_0)
                &&& final(self).avg_buffer() == old(self).avg_buffer()
                &&& final(self).talkers().len() == old(self).talkers().len()
                &&& forall|k: int| 0 <= k < old(self).talkers().len() && k != j ==> #[trigger] final(self).talkers()[k]
                    == old(self).talkers()[k]
                &&& final(self).talkers()[j].id == id
                &&& expected is Ok ==> {
                    &&& q2.packets() == q.packets().insert(
                        crate::queue::insert_pos(q.packets(), q.next_id(), sequence),
                        crate::queue::QueuePacket { packet, samples: n as usize, id: sequence },
                    )
                    &&& q2.buffered() == q.buffered() + n
                    &&& q2.prebuffer() == crate::queue::prebuffer_after(q.prebuffer(), q.packets(), q.next_id(), sequence,
                        n, q.last_frame())
                    &&& q2.next_id() == q.next_id()
                    &&& q2.scratch() == q.scratch()
                    &&& q2.loss_count() == q.loss_count()
                    &&& q2.last_frame() == q.last_frame()
                    &&& q2.gain() == q.gain()
                    &&& q2.size_history() == q.size_history()
                    &&& q2.prebuffered_for() == q.prebuffered_for()
                    &&& q2.pending() is None
                    &&& q2.stopped() == q.stopped()
                }
            }),
            !old(self).has(id) ==> ({
                &&& samples is None ==> r == Err::<Option<u64>, Error>(Error::GetPacketSample)
                &&& (samples matches Some(n) && n > crate::queue::MAX_BUFFER_SIZE) ==> r == Err::<Option<u64>, Error>(
                    Error::TooManySamples,
                )
                &&& (samples matches Some(n) && n <= crate::queue::MAX_BUFFER_SIZE) ==> {
                    let t = final(self).talkers().last();
                    &&& r == Ok::<Option<u64>, Error>(Some(id))
                    &&& final(self).has(id)
                    &&& final(self).talkers() == old(self).talkers().push(t)
                    &&& final(self).avg_buffer() == next_avg(old(self).talkers(), old(self).avg_buffer())
                    &&& t.id == id
                    &&& t.queue.packets() == seq![
                        crate::queue::QueuePacket {
                            packet,
                            samples: if packet@.len() <= 1 { 0 } else { samples->Some_0 },
                            id: sequence,
                        },
                    ]
                    &&& t.queue.prebuffer() == final(self).avg_buffer()
                    &&& t.queue.gain() == final(self).new_gain()
                    &&& t.queue.next_id() == sequence
                    &&& t.queue.last_frame() == samples->Some_0
                    &&& t.queue.loss_count() == 0
                    &&& t.queue.scratch().len() == 0
                    &&& t.queue.size_history() == seq![0u8]
                    &&& t.queue.prebuffered_for() == 0
                    &&& t.queue.pending() is None
                    &&& !t.queue.stopped()
                }
            }),
    {
        match self.find(id) {
            Some(j) => {
                let ghost q0 = self.queues@;
                let t = &mut self.queues[j];
                let res = t.queue.add_packet(sequence, packet, samples);
                proof {
                    assert(self.queues@ == q0.update(j as int, self.queues@[j as int]));
                    assert forall|k: int| 0 <= k < self.queues@.len() implies (#[trigger] self.queues@[k]).queue.wf()
                        && self.queues@[k].queue.pending() is None by {
                        if k != j {
                            assert(self.queues@[k] == q0[k]);
                        }
                    }
                    assert forall|a: int, b: int| 0 <= a < b < self.queues@.len() implies
                        (#[trigger] self.queues@[a]).id != (#[trigger] self.queues@[b]).id by {
                        assert(self.queues@[a].id == q0[a].id && self.queues@[b].id == q0[b].id);
                    }
                    if res is Err {
                        assert(self.queues@ =~= q0);
                    }
                    assert forall|k: int| 0 <= k < q0.len() && k != j implies #[trigger] self.queues@[k] == q0[k] by {}
                    assert(old(self).index_of(id) == j) by {
                        let k = old(self).index_of(id);
                        assert(0 <= k < q0.len() && q0[k].id == id);
                        if k != j {
                            if k < j {
                                assert(q0[k].id != q0[j as int].id);
                            } else {
                                assert(q0[j as int].id != q0[k].id);
                            }
                        }
                    }
                }
                match res {
                    Ok(()) => Ok(None),
                    Err(e) => Err(e),
                }
            },
            None => {
                let mut queue = match AudioQueue::new(sequence, packet, samples) {
                    Ok(q) => q,
                    Err(e) => return Err(e),
                };
                if self.queues.len() > 0 {
                    self.avg_buffer_samples = self.average_buffer();
                }
                queue.set_buffering_samples(self.avg_buffer_samples);
                queue.set_volume(self.volume);
                let ghost q0 = self.queues@;
                self.queues.push(Talker { id, queue });
                proof {
                    let q = self.queues@;
                    assert forall|k: int| 0 <= k < q.len() implies (#[trigger] q[k]).queue.wf()
                        && q[k].queue.pending() is None by {
                        if k < q0.len() {
                            assert(q[k] == q0[k]);
                        }
                    }
                    assert forall|a: int, b: int| 0 <= a < b < q.len() implies (#[trigger] q[a]).id
                        != (#[trigger] q[b]).id by {
                        if b < q0.len() {
                            assert(q[a] == q0[a] && q[b] == q0[b]);
                        } else {
                            assert(q[a] == q0[a]);
                        }
                    }
                    assert(q[q.len() - 1].id == id);
                    assert(q =~= q0.push(q[q.len() - 1]));
                    assert(self.talkers()[self.talkers().len() - 1].id == id);
                    assert(self.has(id));
                }
                Ok(Some(id))
            },
        }
    }

    /// Starts a fill pass that adds every speaker's next `buf.len()` samples,
    /// scaled by the queue's gain, into `buf`, which is not cleared first.
    /// Lost queues give nothing and are removed; a queue whose stream ends
    /// gives what it has and is removed. Where a queue needs a decode, the
    /// pass stops and asks for it.
    pub fn fill_buffer(&mut self, buf: &mut Vec<i32>) -> (r: FillStep)
        requires
            old(self).wf(),
            !old(self).filling(),
        ensures
            final(self).wf(),
            final(buf)@.len() == old(buf)@.len(),
            final(self).pass_start() == old(self).talkers(),
            final(self).fill_len() == old(buf)@.len(),
            final(self).avg_buffer() == old(self).avg_buffer(),
            final(self).new_gain() == old(self).new_gain(),
            final(buf)@ == mix_all(old(buf)@, final(self).visits()),
            (forall|j: int| 0 <= j < old(self).talkers().len() ==> no_decode_or_end(
                (#[trigger] old(self).talkers()[j]).queue, old(buf)@.len() as nat)) ==> r is Finished,
            forall|j: int| 0 <= j < final(self).visits().len() ==> no_decode_or_end(
                (#[trigger] old(self).talkers()[j]).queue, old(buf)@.len() as nat) && final(self).visits()[j].4,
            r is Finished ==> forall|j: int| 0 <= j < old(self).talkers().len() ==> no_decode_or_end(
                (#[trigger] old(self).talkers()[j]).queue, old(buf)@.len() as nat),
            r matches FillStep::Decode { id, request } ==> final(self).decode_asked(id, request),
            r matches FillStep::Finished(removed) ==> !final(self).filling() && final(self).pass_done(removed@),
    {
        self.filling = true;
        self.fill_len = buf.len();
        self.cursor = 0;
        self.started = false;
        self.to_remove = Vec::new();
        self.start = Ghost(self.queues@);
        self.visits = Ghost(Seq::empty());
        proof {
            assert forall|j: int| 0 <= j < self.queues@.len() implies (#[trigger] self.queues@[j]).queue.pending() is None by {}
            assert forall|id: u64| #[trigger] self.to_remove@.contains(id) <==> removed_in(self.start@, self.visits@, 0, id) by {
                assert(!self.to_remove@.contains(id));
            }
            assert(self.visits@.subrange(0, 0) =~= self.visits@);
            assert(mix_all(buf@, self.visits@.subrange(0, 0)) == buf@);
        }
        let ghost all_quick = forall|j: int| 0 <= j < old(self).talkers().len() ==> no_decode_or_end(
            (#[trigger] old(self).talkers()[j]).queue, old(buf)@.len() as nat);
        proof {
            if all_quick {
                assert forall|j: int| 0 <= j < self.start@.len() implies no_decode_or_end(
                    (#[trigger] self.start@[j]).queue, self.fill_len as nat) by {
                    assert(self.start@[j] == old(self).talkers()[j]);
                }
            }
        }
        let r = self.run(buf);
        proof {
            assert(self.visits@.subrange(0, self.visits@.len() as int) =~= self.visits@);
            assert forall|j: int| 0 <= j < self.visits@.len() implies no_decode_or_end(
                (#[trigger] old(self).talkers()[j]).queue, old(buf)@.len() as nat) && self.visits@[j].4 by {
                assert(self.start@[j] == old(self).talkers()[j]);
            }
        }
        r
    }

    /// Resumes the pass with the result of the decode it asked for: the
    /// interleaved samples, or `None` where the decoder failed. `buf` is the
    /// buffer the pass was started with.
    pub fn resume_fill(&mut self, buf: &mut Vec<i32>, result: Option<Vec<i16>>) -> (r: FillStep)
        requires
            old(self).wf(),
            old(self).filling(),
            !old(self).idle(),
            old(buf)@.len() == old(self).fill_len(),
        ensures
            final(self).wf(),
            final(buf)@.len() == old(buf)@.len(),
            final(self).pass_start() == old(self).pass_start(),
            final(self).fill_len() == old(self).fill_len(),
            final(self).avg_buffer() == old(self).avg_buffer(),
            final(self).new_gain() == old(self).new_gain(),
            0 <= old(self).cursor() < old(self).talkers().len(),
            complete_spec(old(self).talkers()[old(self).cursor()].queue, result, final(self).last_completed()),
            final(self).visits().len() >= old(self).visits().len(),
            final(self).visits().subrange(0, old(self).visits().len() as int) == old(self).visits(),
            final(buf)@ == mix_all(old(buf)@, final(self).visits().subrange(old(self).visits().len() as int,
                final(self).visits().len() as int)),
            final(self).visits().len() > old(self).visits().len() ==> final(self).visits()[old(self).visits().len() as int].3
                == final(self).last_completed() && !final(self).visits()[old(self).visits().len() as int].4,
            final(self).visits().len() == old(self).visits().len() ==> r is Decode && final(self).cursor() == old(self).cursor()
                && !take_enough(final(self).last_completed(), old(self).fill_len(), false)
                && !ends_at_front(final(self).last_completed()),
            forall|j: int| old(self).visits().len() < j < final(self).visits().len() ==> no_decode_or_end(
                (#[trigger] old(self).pass_start()[j]).queue, old(self).fill_len()) && final(self).visits()[j].4,
            r is Finished ==> forall|j: int| old(self).visits().len() < j < old(self).pass_start().len() ==> no_decode_or_end(
                (#[trigger] old(self).pass_start()[j]).queue, old(self).fill_len()),
            r matches FillStep::Decode { id, request } ==> final(self).decode_asked(id, request),
            r matches FillStep::Finished(removed) ==> !final(self).filling() && final(self).pass_done(removed@),
    {
        let c = self.cursor;
        proof {
            let q0 = self.queues@;
            let j = choose|j: int| 0 <= j < q0.len() && !((#[trigger] q0[j]).queue.pending() is None);
            assert(self.started && j == c);
        }
        let ghost a = *self;
        let t = &mut self.queues[c];
        t.queue.complete_decode(result);
        self.last_completed = Ghost(self.queues@[c as int].queue);
        proof {
            lemma_resumed(a, *self);
        }
        let ghost v0 = self.visits@;
        let ghost b0 = buf@;
        match self.step_talker(buf) {
            Some(step) => {
                proof {
                    assert(self.visits@.subrange(0, v0.len() as int) =~= v0);
                    assert(self.visits@.subrange(v0.len() as int, v0.len() as int) =~= Seq::<Visit>::empty());
                }
                step
            },
            None => {
                let ghost v1 = self.visits@;
                let ghost b1 = buf@;
                let r = self.run(buf);
                proof {
                    let n = self.visits@.len() as int;
                    let k = v0.len() as int;
                    let x = seq![v1.last()];
                    let y = self.visits@.subrange(k + 1, n);
                    assert(v1.subrange(0, k) == v0);
                    assert(self.visits@.subrange(0, k + 1) == v1);
                    assert(self.visits@.subrange(0, k) =~= v0);
                    assert(self.visits@.subrange(k, n) =~= x + y);
                    assert(x.drop_last() =~= Seq::<Visit>::empty());
                    assert(mix_all(b0, x.drop_last()) == b0);
                    assert(x.last() == v1.last());
                    assert(mix_all(b0, x) == b1);
                    lemma_mix_all_concat(b0, x, y);
                    assert(self.visits@[k] == v1.last());
                }
                r
            },
        }
    }

    /// Deals with the talker at the cursor until its take is over, or until
    /// it needs a decode.
    #[verifier::rlimit(100)]
    fn step_talker(&mut self, buf: &mut Vec<i32>) -> (r: Option<FillStep>)
        requires
            old(self).wf(),
            old(self).filling,
            old(self).idle(),
            old(self).cursor < old(self).queues@.len(),
            old(buf)@.len() == old(self).fill_len,
            old(self).started ==> old(self).queues@[old(self).cursor as int].queue == old(self).last_completed@,
        ensures
            final(self).wf(),
            final(self).filling,
            final(self).start == old(self).start,
            final(self).fill_len == old(self).fill_len,
            final(self).avg_buffer_samples == old(self).avg_buffer_samples,
            final(self).volume == old(self).volume,
            final(self).last_completed == old(self).last_completed,
            final(buf)@.len() == old(buf)@.len(),
            r is None ==> {
                let v = final(self).visits@.last();
                &&& final(self).idle()
                &&& !final(self).started
                &&& final(self).cursor == old(self).cursor + 1
                &&& final(self).visits@ == old(self).visits@.push(v)
                &&& final(buf)@ == mix_seq(old(buf)@, v.1, v.2)
                &&& old(self).started ==> v.3 == old(self).queues@[old(self).cursor as int].queue && !v.4
                &&& !old(self).started ==> v.4 && no_decode_or_end(old(self).start@[old(self).cursor as int].queue,
                    old(self).fill_len as nat)
            },
            r is Some && old(self).started ==> !take_enough(old(self).queues@[old(self).cursor as int].queue,
                old(self).fill_len as nat, false) && !ends_at_front(old(self).queues@[old(self).cursor as int].queue),
            r is Some ==> r->Some_0 is Decode && final(self).visits == old(self).visits && final(buf)@ == old(buf)@,
            r matches Some(FillStep::Decode { id, request }) ==> final(self).decode_asked(id, request),
            (!old(self).started && no_decode_or_end(old(self).start@[old(self).cursor as int].queue, old(self).fill_len as nat))
                ==> r is None,
    {
        let c = self.cursor;
        let len = self.fill_len;
        let n = self.queues.len();
        assert(c < n);
        let ghost a = *self;
        let ghost s = self.start@[c as int].queue;
        let id = self.queues[c].id;
        if !self.started && self.queues[c].queue.packet_loss_num() >= MAX_PACKET_LOSSES {
            let g = self.queues[c].queue.volume();
            let ghost v: Visit = (VISIT_LOST, Seq::empty(), g, s, true);
            self.to_remove.push(id);
            self.visits = Ghost(self.visits@.push(v));
            self.cursor = c + 1;
            proof {
                assert(mix_seq(buf@, v.1, v.2) =~= buf@);
                lemma_visit_step(a, *self, v);
            }
            return None;
        }
        let was_started = self.started;
        let ghost before = self.queues@[c as int].queue;
        let t = &mut self.queues[c];
        let step = if was_started { t.queue.next_step(len) } else { t.queue.get_next_data(len) };
        let g = self.queues[c].queue.volume();
        proof {
            assert(g == s.gain());
        }
        match step {
            TakeStep::Decode(request) => {
                self.started = true;
                self.step_from = Ghost(before);
                proof {
                    if !was_started {
                        assert(before == s);
                        assert(!(before.scratch().len() >= len));
                    } else {
                        assert(!(before.scratch().len() >= len || before.stopped()));
                    }
                    lemma_hand_out(a, *self);
                }
                Some(FillStep::Decode { id, request })
            },
            TakeStep::Waiting => {
                let ghost v: Visit = (VISIT_WAITING, Seq::empty(), g, s, true);
                self.visits = Ghost(self.visits@.push(v));
                self.cursor = c + 1;
                proof {
                    assert(!was_started);
                    assert(before == s);
                    assert(mix_seq(buf@, v.1, v.2) =~= buf@);
                    lemma_visit_step(a, *self, v);
                }
                None
            },
            TakeStep::Ready => {
                let ghost sc = self.queues@[c as int].queue.scratch();
                let t = &mut self.queues[c];
                let pcm = t.queue.finish_take(len, false);
                mix_into(buf, &pcm, g);
                let ghost v: Visit = (VISIT_PLAYED, pcm@, g, before, !was_started);
                self.visits = Ghost(self.visits@.push(v));
                self.started = false;
                self.cursor = c + 1;
                proof {
                    if !was_started {
                        assert(before == s);
                        assert(sc == s.scratch());
                        if s.scratch().len() >= len {
                            assert(padded(sc, len as nat) == sc);
                        }
                    }
                    lemma_visit_step(a, *self, v);
                }
                None
            },
            TakeStep::Ended => {
                let t = &mut self.queues[c];
                let pcm = t.queue.finish_take(len, true);
                mix_into(buf, &pcm, g);
                self.to_remove.push(id);
                let ghost v: Visit = (VISIT_ENDED, pcm@, g, before, !was_started);
                self.visits = Ghost(self.visits@.push(v));
                self.started = false;
                self.cursor = c + 1;
                proof {
                    if !was_started {
                        assert(before == s);
                    }
                    lemma_visit_step(a, *self, v);
                }
                None
            },
        }
    }

    /// The pass goes on from the cursor until a queue needs a decode or all are done.
    fn run(&mut self, buf: &mut Vec<i32>) -> (r: FillStep)
        requires
            old(self).wf(),
            old(self).filling,
            old(self).idle(),
            !old(self).started,
            old(buf)@.len() == old(self).fill_len,
        ensures
            final(self).wf(),
            final(self).start == old(self).start,
            final(self).fill_len == old(self).fill_len,
            final(self).avg_buffer_samples == old(self).avg_buffer_samples,
            final(self).volume == old(self).volume,
            final(self).last_completed == old(self).last_completed,
            final(buf)@.len() == old(buf)@.len(),
            final(self).visits@.len() >= old(self).visits@.len(),
            final(self).visits@.subrange(0, old(self).visits@.len() as int) == old(self).visits@,
            final(buf)@ == mix_all(old(buf)@, final(self).visits@.subrange(old(self).visits@.len() as int,
                final(self).visits@.len() as int)),
            (forall|j: int| old(self).cursor <= j < old(self).start@.len() ==> no_decode_or_end(
                (#[trigger] old(self).start@[j]).queue, old(self).fill_len as nat)) ==> r is Finished,
            passed_without_decode(old(self).start@, final(self).visits@, old(self).visits@.len() as int,
                old(self).fill_len as nat),
            r matches FillStep::Decode { id, request } ==> final(self).decode_asked(id, request),
            r matches FillStep::Finished(removed) ==> !final(self).filling() && final(self).pass_done(removed@),
    {
        let ghost v0 = self.visits@.len() as int;
        let ghost quick = forall|j: int| old(self).cursor <= j < old(self).start@.len() ==> no_decode_or_end(
            (#[trigger] old(self).start@[j]).queue, old(self).fill_len as nat);
        proof {
            assert(self.visits@.subrange(0, v0) =~= self.visits@);
            assert(self.visits@.subrange(v0, v0) =~= Seq::<Visit>::empty());
        }
        loop
            invariant
                self.wf(),
                self.filling,
                self.idle(),
                !self.started,
                self.start == old(self).start,
                self.fill_len == old(self).fill_len,
                self.avg_buffer_samples == old(self).avg_buffer_samples,
                self.volume == old(self).volume,
                self.last_completed == old(self).last_completed,
                buf@.len() == old(buf)@.len(),
                buf@.len() == self.fill_len,
                v0 == old(self).visits@.len(),
                self.visits@.len() >= v0,
                self.visits@.subrange(0, v0) == old(self).visits@,
                buf@ == mix_all(old(buf)@, self.visits@.subrange(v0, self.visits@.len() as int)),
                self.cursor >= old(self).cursor,
                quick == (forall|j: int| old(self).cursor <= j < old(self).start@.len() ==> no_decode_or_end(
                    (#[trigger] old(self).start@[j]).queue, old(self).fill_len as nat)),
                passed_without_decode(old(self).start@, self.visits@, v0, old(self).fill_len as nat),
            decreases self.queues@.len() - self.cursor,
        {
            if self.cursor >= self.queues.len() {
                let ghost vf = self.visits@;
                let r = self.finish();
                proof {
                    assert(self.visits@ == vf);
                }
                return r;
            }
            let ghost vb = self.visits@;
            let ghost bb = buf@;
            match self.step_talker(buf) {
                Some(step) => {
                    return step;
                },
                None => {
                    proof {
                        let n = self.visits@.len() as int;
                        let w = self.visits@.subrange(v0, n);
                        assert(w.drop_last() =~= vb.subrange(v0, vb.len() as int));
                        assert(w.last() == self.visits@.last());
                        assert(self.visits@.subrange(0, v0) =~= vb.subrange(0, v0));
                    }
                },
            }
        }
    }

    /// Ends the pass: removes the queues it marked.
    fn finish(&mut self) -> (r: FillStep)
        requires
            old(self).wf(),
            old(self).filling,
            old(self).idle(),
            old(self).cursor >= old(self).queues@.len(),
        ensures
            final(self).wf(),
            !final(self).filling(),
            final(self).start == old(self).start,
            final(self).visits == old(self).visits,
            final(self).fill_len == old(self).fill_len,
            final(self).avg_buffer_samples == old(self).avg_buffer_samples,
            final(self).volume == old(self).volume,
            final(self).last_completed == old(self).last_completed,
            r matches FillStep::Finished(removed) && final(self).pass_done(removed@),
    {
        let ghost s = self.start@;
        let mut i: usize = self.queues.len();
        proof {
            assert forall|j: int| 0 <= j < self.queues@.len() implies id_in(s, (#[trigger] self.queues@[j]).id) by {
                assert(s[j].id == self.queues@[j].id);
            }
            assert forall|id: u64| id_in(s, id) implies id_in(self.queues@, id) by {
                let j = choose|j: int| 0 <= j < s.len() && (#[trigger] s[j]).id == id;
                assert(self.queues@[j].id == id);
            }
        }
        while i > 0
            invariant
                i <= self.queues@.len(),
                forall|j: int| 0 <= j < self.queues@.len() ==> (#[trigger] self.queues@[j]).queue.wf()
                    && self.queues@[j].queue.pending() is None,
                forall|x: int, y: int| 0 <= x < y < self.queues@.len() ==> (#[trigger] self.queues@[x]).id
                    != (#[trigger] self.queues@[y]).id,
                forall|j: int| i <= j < self.queues@.len() ==> !self.to_remove@.contains((#[trigger] self.queues@[j]).id),
                forall|j: int| 0 <= j < self.queues@.len() ==> id_in(s, (#[trigger] self.queues@[j]).id),
                forall|id: u64| id_in(s, id) && !self.to_remove@.contains(id)
                    ==> id_in(self.queues@, id),
                self.to_remove == old(self).to_remove,
                self.start == old(self).start,
                self.visits == old(self).visits,
                self.fill_len == old(self).fill_len,
                self.cursor == old(self).cursor,
                self.avg_buffer_samples == old(self).avg_buffer_samples,
                self.volume == old(self).volume,
                self.last_completed == old(self).last_completed,
                s == self.start@,
            decreases i,
        {
            let id = self.queues[i - 1].id;
            if contains_id(&self.to_remove, id) {
                let ghost q0 = self.queues@;
                let _gone = self.queues.remove(i - 1);
                proof {
                    let q = self.queues@;
                    assert forall|j: int| 0 <= j < q.len() implies (#[trigger] q[j]) == if j < i - 1 { q0[j] } else { q0[j + 1] } by {}
                    assert forall|x: int, y: int| 0 <= x < y < q.len() implies (#[trigger] q[x]).id != (#[trigger] q[y]).id by {
                        let x0 = if x < i - 1 { x } else { x + 1 };
                        let y0 = if y < i - 1 { y } else { y + 1 };
                        assert(q[x] == q0[x0] && q[y] == q0[y0]);
                    }
                    assert forall|j: int| 0 <= j < q.len() implies (#[trigger] q[j]).queue.wf() && q[j].queue.pending() is None by {
                        let j0 = if j < i - 1 { j } else { j + 1 };
                        assert(q[j] == q0[j0]);
                    }
                    assert forall|j: int| i - 1 <= j < q.len() implies !self.to_remove@.contains((#[trigger] q[j]).id) by {
                        assert(q[j] == q0[j + 1]);
                    }
                    assert forall|j: int| 0 <= j < q.len() implies id_in(s, (#[trigger] q[j]).id) by {
                        let j0 = if j < i - 1 { j } else { j + 1 };
                        assert(q[j] == q0[j0]);
                    }
                    assert forall|id2: u64| id_in(s, id2)
                        && !self.to_remove@.contains(id2) implies id_in(q, id2) by {
                        let k0 = choose|k: int| 0 <= k < q0.len() && (#[trigger] q0[k]).id == id2;
                        assert(q0[k0].id == id2);
                        assert(k0 != i - 1);
                        let k1 = if k0 < i - 1 { k0 } else { k0 - 1 };
                        assert(q[k1] == q0[k0]);
                        assert(q[k1].id == id2);
                    }
                }
            }
            i = i - 1;
        }
        self.filling = false;
        self.started = false;
        self.cursor = 0;
        let mut removed: Vec<u64> = Vec::new();
        std::mem::swap(&mut removed, &mut self.to_remove);
        proof {
            let v = self.visits@;
            assert(v.len() == s.len());
            assert forall|j: int| 0 <= j < s.len() implies visit_ok((#[trigger] s[j]).queue, v[j], self.fill_len as nat) by {}
            assert forall|id: u64| #[trigger] removed@.contains(id) <==> removed_in(s, v, s.len() as int, id) by {}
            assert forall|id: u64| #[trigger] self.has(id) <==> (id_in(s, id)
                && !removed@.contains(id)) by {
                if self.has(id) {
                    let j = choose|j: int| 0 <= j < self.talkers().len() && (#[trigger] self.talkers()[j]).id == id;
                    assert(self.queues@[j].id == id);
                }
                if id_in(s, id) && !removed@.contains(id) {
                    let k = choose|k: int| 0 <= k < self.queues@.len() && (#[trigger] self.queues@[k]).id == id;
                    assert(self.talkers()[k].id == id);
                }
            }
        }
        FillStep::Finished(removed)
    }

    /// Usual frame plus the mean of the queues' smallest recent buffer sizes, in samples.
    fn average_buffer(&self) -> (r: usize)
        requires
            self.wf(),
            self.talkers().len() > 0,
        ensures
            r == next_avg(self.talkers(), self.avg_buffer()),
    {
        let mut sum: u128 = 0;
        let mut j: usize = 0;
        let n = self.queues.len();
        while j < n
            invariant
                j <= n,
                n == self.queues@.len(),
                self.wf(),
                sum == sum_mins(self.queues@.subrange(0, j as int)),
                sum <= 255 * j,
            decreases n - j,
        {
            proof {
                assert(self.queues@[j as int].queue.wf());
            }
            let m = self.queues[j].queue.min_buffer_size();
            proof {
                let t = self.queues@.subrange(0, j + 1);
                assert(t.drop_last() =~= self.queues@.subrange(0, j as int));
                assert(t.last() == self.queues@[j as int]);
            }
            sum = sum + m as u128;
            j = j + 1;
        }
        proof {
            assert(self.queues@.subrange(0, n as int) =~= self.queues@);
            assert(sum / (n as u128) <= 255) by (nonlinear_arith)
                requires sum <= 255 * n, n > 0;
        }
        let mean = (sum / (n as u128)) as usize;
        mean + USUAL_FRAME_SIZE
    }
}

/// Whether `v` holds `id`.
fn contains_id(v: &Vec<u64>, id: u64) -> (r: bool)
    ensures
        r == v@.contains(id),
{
    let mut i: usize = 0;
    while i < v.len()
        invariant
            i <= v@.len(),
            forall|k: int| 0 <= k < i ==> v@[k] != id,
        decreases v@.len() - i,
    {
        if v[i] == id {
            return true;
        }
        i = i + 1;
    }
    false
}

/// Mixing in two runs of outputs one after the other is mixing in both.
pub proof fn lemma_mix_all_concat(b: Seq<i32>, x: Seq<Visit>, y: Seq<Visit>)
    ensures
        mix_all(b, x + y) == mix_all(mix_all(b, x), y),
    decreases y.len(),
{
    if y.len() == 0 {
        assert(x + y =~= x);
    } else {
        lemma_mix_all_concat(b, x, y.drop_last());
        assert((x + y).drop_last() =~= x + y.drop_last());
        assert((x + y).last() == y.last());
    }
}

/// A queue that took its decode result keeps the handler's invariant.
proof fn lemma_resumed(a: AudioHandler, b: AudioHandler)
    requires
        a.wf(),
        a.started,
        b.queues@.len() == a.queues@.len(),
        forall|j: int| 0 <= j < a.queues@.len() && j != a.cursor ==> #[trigger] b.queues@[j] == a.queues@[j],
        b.queues@[a.cursor as int].id == a.queues@[a.cursor as int].id,
        b.queues@[a.cursor as int].queue.wf(),
        b.queues@[a.cursor as int].queue.pending() is None,
        b.queues@[a.cursor as int].queue.gain() == a.queues@[a.cursor as int].queue.gain(),
        b.cursor == a.cursor,
        b.started,
        b.filling,
        b.start == a.start,
        b.visits == a.visits,
        b.fill_len == a.fill_len,
        b.to_remove == a.to_remove,
    ensures
        b.wf(),
        b.idle(),
{
    let c = a.cursor as int;
    let qa = a.queues@;
    let qb = b.queues@;
    assert forall|j: int| 0 <= j < qb.len() implies (#[trigger] qb[j]).queue.wf() && qb[j].queue.pending() is None
        && qb[j].id == qa[j].id by {
        if j != c {
            assert(qb[j] == qa[j]);
            assert(qa[j].queue.pending() is None || (a.started && j == a.cursor));
        }
    }
    assert forall|x: int, y: int| 0 <= x < y < qb.len() implies (#[trigger] qb[x]).id != (#[trigger] qb[y]).id by {
        assert(qb[x].id == qa[x].id && qb[y].id == qa[y].id);
    }
    assert forall|j: int| c < j < qb.len() implies #[trigger] qb[j] == b.start@[j] by {
        assert(qb[j] == qa[j]);
    }
}

/// A pass that stops for a decode at the cursor keeps the handler's invariant.
proof fn lemma_hand_out(a: AudioHandler, b: AudioHandler)
    requires
        a.wf(),
        a.filling,
        a.idle(),
        a.cursor < a.queues@.len(),
        b.queues@.len() == a.queues@.len(),
        forall|j: int| 0 <= j < a.queues@.len() && j != a.cursor ==> #[trigger] b.queues@[j] == a.queues@[j],
        b.queues@[a.cursor as int].id == a.queues@[a.cursor as int].id,
        b.queues@[a.cursor as int].queue.wf(),
        b.cursor == a.cursor,
        b.started,
        b.filling,
        b.start == a.start,
        b.visits == a.visits,
        b.fill_len == a.fill_len,
        b.to_remove == a.to_remove,
        b.start@[a.cursor as int].queue.loss_count() < MAX_PACKET_LOSSES,
        !gate_closed(b.start@[a.cursor as int].queue),
        b.start@[a.cursor as int].queue.scratch().len() < b.fill_len,
        !ends_at_front(b.start@[a.cursor as int].queue),
        b.queues@[a.cursor as int].queue.gain() == b.start@[a.cursor as int].queue.gain(),
    ensures
        b.wf(),
{
    let c = a.cursor as int;
    let qa = a.queues@;
    let qb = b.queues@;
    assert forall|j: int| 0 <= j < qb.len() implies (#[trigger] qb[j]).queue.wf()
        && (qb[j].queue.pending() is None || (b.started && j == b.cursor)) && qb[j].id == qa[j].id by {
        if j != c {
            assert(qb[j] == qa[j]);
        }
    }
    assert forall|x: int, y: int| 0 <= x < y < qb.len() implies (#[trigger] qb[x]).id != (#[trigger] qb[y]).id by {
        assert(qb[x].id == qa[x].id && qb[y].id == qa[y].id);
    }
    assert forall|j: int| c < j < qb.len() implies #[trigger] qb[j] == b.start@[j] by {
        assert(qb[j] == qa[j]);
    }
}

/// After the talker at the cursor was dealt with, the pass moves on to the next one.
proof fn lemma_visit_step(a: AudioHandler, b: AudioHandler, v: Visit)
    requires
        a.wf(),
        a.filling,
        a.idle(),
        a.cursor < a.queues@.len(),
        b.queues@.len() == a.queues@.len(),
        forall|j: int| 0 <= j < a.queues@.len() && j != a.cursor ==> #[trigger] b.queues@[j] == a.queues@[j],
        b.queues@[a.cursor as int].id == a.queues@[a.cursor as int].id,
        b.queues@[a.cursor as int].queue.wf(),
        b.queues@[a.cursor as int].queue.pending() is None,
        b.cursor == a.cursor + 1,
        !b.started,
        b.filling,
        b.fill_len == a.fill_len,
        b.start == a.start,
        b.visits@ == a.visits@.push(v),
        visit_ok(a.start@[a.cursor as int].queue, v, a.fill_len as nat),
        b.to_remove@ == if v.0 == VISIT_LOST || v.0 == VISIT_ENDED {
            a.to_remove@.push(a.queues@[a.cursor as int].id)
        } else {
            a.to_remove@
        },
    ensures
        b.wf(),
        b.idle(),
{
    let c = a.cursor as int;
    let qa = a.queues@;
    let qb = b.queues@;
    let s = a.start@;
    assert forall|j: int| 0 <= j < qb.len() implies (#[trigger] qb[j]).queue.wf() && qb[j].queue.pending() is None
        && qb[j].id == qa[j].id by {
        if j != c {
            assert(qb[j] == qa[j]);
        }
    }
    assert forall|x: int, y: int| 0 <= x < y < qb.len() implies (#[trigger] qb[x]).id != (#[trigger] qb[y]).id by {
        assert(qb[x].id == qa[x].id && qb[y].id == qa[y].id);
    }
    assert forall|j: int| 0 <= j < c + 1 implies visit_ok((#[trigger] s[j]).queue, b.visits@[j], b.fill_len as nat) by {
        if j < c {
            assert(b.visits@[j] == a.visits@[j]);
        }
    }
    assert forall|j: int| c + 1 < j < qb.len() implies #[trigger] qb[j] == s[j] by {
        assert(qb[j] == qa[j]);
    }
    if c + 1 < qb.len() {
        assert(qb[c + 1] == qa[c + 1]);
    }
    assert forall|id: u64| #[trigger] b.to_remove@.contains(id) <==> removed_in(s, b.visits@, c + 1, id) by {
        if b.to_remove@.contains(id) {
            let k = choose|k: int| 0 <= k < b.to_remove@.len() && b.to_remove@[k] == id;
            if k < a.to_remove@.len() {
                assert(a.to_remove@[k] == id);
                assert(a.to_remove@.contains(id));
                let j = choose|j: int| 0 <= j < c && (#[trigger] s[j]).id == id && (a.visits@[j].0 == VISIT_LOST
                    || a.visits@[j].0 == VISIT_ENDED);
                assert(b.visits@[j] == a.visits@[j]);
            } else {
                assert(s[c].id == qa[c].id);
                assert(b.visits@[c] == v);
            }
        }
        if removed_in(s, b.visits@, c + 1, id) {
            let j = choose|j: int| 0 <= j < c + 1 && (#[trigger] s[j]).id == id && (b.visits@[j].0 == VISIT_LOST
                || b.visits@[j].0 == VISIT_ENDED);
            if j < c {
                assert(b.visits@[j] == a.visits@[j]);
                assert(removed_in(s, a.visits@, c, id));
                assert(a.to_remove@.contains(id));
                let k = choose|k: int| 0 <= k < a.to_remove@.len() && a.to_remove@[k] == id;
                if v.0 == VISIT_LOST || v.0 == VISIT_ENDED {
                    assert(b.to_remove@[k] == id);
                }
            } else {
                assert(b.visits@[c] == v);
                assert(qa[c].id == id);
                assert(b.to_remove@[b.to_remove@.len() - 1] == id);
            }
        }
    }
}
} // verus!
