//! Per-peer protocol state machine: drives packet sequence numbers, keeps
//! fixed-size circular buffers of receive history (for ack bitfields) and
//! send history (for loss detection and round-trip-time estimation), and
//! owns the message queue that layers reliable ordered delivery on top.
//!
//! Time enters through the callers: every call that needs the clock takes
//! the current time in milliseconds from a monotonic clock, so the machine
//! itself stays a pure function of its inputs.
use vstd::prelude::*;
use vstd::wrapping::u16_specs;
use vstd::wrapping::u32_specs;
use crate::message_queue::MessageQueue;
use crate::message_queue::QueueModel;
use crate::message_queue::initial_queue;
use crate::message_queue::spec_acknowledge;
use crate::message_queue::spec_queue_message;
use crate::message_queue::spec_recv_messages;
use crate::message_queue::spec_send_next;
use crate::packet::Packet;
use crate::packet::ParseError;
use crate::packet::decoded_acks;
use crate::packet::spec_encode;
use crate::packet::u16_of_be_bytes;
use crate::packet::u32_of_be_bytes;
use crate::recency::is_recent;
use crate::recency::spec_is_recent;

verus! {

/// Capacity of the two circular history buffers, in packets.
pub const BUFFER_SIZE: usize = 128;

/// Payload byte budget per packet, leaving header room under a typical MTU.
pub const BYTE_BUDGET: u16 = 1200;

/// Upper bound on accepted timestamps, so that the fixed-point RTT
/// arithmetic (microseconds in a `u64`) cannot overflow. Generous: about
/// 142,000 years of session time.
pub const MAX_TIME_MS: u64 = 0x10_0000_0000_0000;

/// What is known about one locally sent packet.
#[derive(Clone, Copy, Debug, PartialEq, Eq, Structural)]
pub struct PacketData {
    pub seq: u16,
    pub sent_time_ms: u64,
}

/// The fate of one locally sent packet, tracked until its buffer slot is
/// reused.
#[derive(Clone, Copy, Debug, PartialEq, Eq, Structural)]
pub enum PacketState {
    Acknowledged(PacketData),
    UnAcknowledged(PacketData),
}

impl PacketState {
    pub open spec fn data(self) -> PacketData {
        match self {
            PacketState::Acknowledged(d) => d,
            PacketState::UnAcknowledged(d) => d,
        }
    }
}

/// Mathematical model of a connection.
#[verifier::ext_equal]
pub struct ConnModel {
    pub last_received_at_ms: u64,
    pub last_sent_at_ms: u64,
    /// Next outgoing packet sequence number, wrapping.
    pub sequence: u16,
    /// Most recent inbound packet sequence number, wraparound-aware.
    pub last_received_sequence: u16,
    /// Which sequence numbers have been seen, slot `seq % BUFFER_SIZE`.
    pub recv_slots: Seq<Option<u16>>,
    /// The fate of each locally sent packet, slot `seq % BUFFER_SIZE`.
    pub sent_slots: Seq<Option<PacketState>>,
    pub queue: QueueModel,
    pub recv_packets: u32,
    pub acked_packets: u32,
    pub lost_packets: u32,
    pub sent_packets: u32,
    /// Smoothed round-trip estimate, in microseconds (fixed point).
    pub rtt_micros: u64,
}

impl ConnModel {
    pub open spec fn wf(self) -> bool {
        &&& self.recv_slots.len() == BUFFER_SIZE
        &&& self.sent_slots.len() == BUFFER_SIZE
        &&& self.queue.wf()
        &&& forall|i: int|
            0 <= i < BUFFER_SIZE ==> ((#[trigger] self.sent_slots[i]) matches Some(st)
                ==> st.data().sent_time_ms <= self.last_sent_at_ms)
        &&& self.last_sent_at_ms < MAX_TIME_MS
        &&& self.last_received_at_ms < MAX_TIME_MS
        &&& self.rtt_micros <= MAX_TIME_MS * 1000
    }
}

/// The model of a fresh connection created at time `now_ms`.
pub open spec fn initial_connection(now_ms: u64) -> ConnModel {
    ConnModel {
        last_received_at_ms: now_ms,
        last_sent_at_ms: now_ms,
        sequence: 0,
        last_received_sequence: 0,
        recv_slots: Seq::new(BUFFER_SIZE as nat, |i: int| None),
        sent_slots: Seq::new(BUFFER_SIZE as nat, |i: int| None),
        queue: initial_queue(),
        recv_packets: 0,
        acked_packets: 0,
        lost_packets: 0,
        sent_packets: 0,
        rtt_micros: 0,
    }
}

pub struct Connection {
    pub last_received_at_ms: u64,
    pub last_sent_at_ms: u64,
    pub sequence: u16,
    pub last_received_sequence: u16,
    pub recv_ack_buffer: Vec<Option<u16>>,
    pub sent_ack_buffer: Vec<Option<PacketState>>,
    pub message_queue: MessageQueue,
    pub recv_packets: u32,
    pub acked_packets: u32,
    pub lost_packets: u32,
    pub sent_packets: u32,
    pub rtt_micros: u64,
}

impl View for Connection {
    type V = ConnModel;

    open spec fn view(&self) -> ConnModel {
        ConnModel {
            last_received_at_ms: self.last_received_at_ms,
            last_sent_at_ms: self.last_sent_at_ms,
            sequence: self.sequence,
            last_received_sequence: self.last_received_sequence,
            recv_slots: self.recv_ack_buffer@,
            sent_slots: self.sent_ack_buffer@,
            queue: self.message_queue@,
            recv_packets: self.recv_packets,
            acked_packets: self.acked_packets,
            lost_packets: self.lost_packets,
            sent_packets: self.sent_packets,
            rtt_micros: self.rtt_micros,
        }
    }
}

/// Fixed-point exponentially weighted moving average: each observation
/// closes one tenth of the gap between the estimate and the sample, rounded
/// toward the estimate — the usual `rtt - (rtt - sample) * 0.1` update in
/// microsecond fixed point, floored at zero by the unsigned type.
pub open spec fn spec_smooth_rtt(curr: u64, sample: u64) -> u64 {
    if curr <= sample {
        (curr + (sample - curr) / 10) as u64
    } else {
        (curr - (curr - sample) / 10) as u64
    }
}

pub fn smoothed_average(curr: u64, sample_micros: u64) -> (r: u64)
    ensures
        r == spec_smooth_rtt(curr, sample_micros),
{
    if curr <= sample_micros {
        curr + (sample_micros - curr) / 10
    } else {
        curr - (curr - sample_micros) / 10
    }
}

/// RTT smoothing law: one observation moves the estimate toward the sample
/// and never past it, so a run of fixed-latency samples converges on that
/// latency monotonically; the estimate is unsigned and so never negative.
pub proof fn lemma_rtt_convergence(curr: u64, sample: u64)
    ensures
        curr <= sample ==> curr <= spec_smooth_rtt(curr, sample) <= sample,
        sample <= curr ==> sample <= spec_smooth_rtt(curr, sample) <= curr,
        curr + 10 <= sample ==> curr < spec_smooth_rtt(curr, sample),
        sample + 10 <= curr ==> spec_smooth_rtt(curr, sample) < curr,
{
}

impl Connection {
    pub open spec fn inv(&self) -> bool {
        &&& self@.wf()
        &&& self.message_queue.size_ok()
    }

    pub fn new(now_ms: u64) -> (r: Connection)
        requires
            now_ms < MAX_TIME_MS,
        ensures
            r.inv(),
            r@ == initial_connection(now_ms),
    {
        let mut recv_ack_buffer: Vec<Option<u16>> = Vec::new();
        let mut sent_ack_buffer: Vec<Option<PacketState>> = Vec::new();
        let mut i: usize = 0;
        while i < BUFFER_SIZE
            invariant
                i <= BUFFER_SIZE,
                recv_ack_buffer@.len() == i,
                sent_ack_buffer@.len() == i,
                forall|j: int| 0 <= j < i ==> (#[trigger] recv_ack_buffer@[j]) is None,
                forall|j: int| 0 <= j < i ==> (#[trigger] sent_ack_buffer@[j]) is None,
            decreases BUFFER_SIZE - i,
        {
            recv_ack_buffer.push(None);
            sent_ack_buffer.push(None);
            i = i + 1;
        }
        let r = Connection {
            last_received_at_ms: now_ms,
            last_sent_at_ms: now_ms,
            sequence: 0,
            last_received_sequence: 0,
            recv_ack_buffer,
            sent_ack_buffer,
            message_queue: MessageQueue::new(),
            recv_packets: 0,
            acked_packets: 0,
            lost_packets: 0,
            sent_packets: 0,
            rtt_micros: 0,
        };
        proof {
            assert(r@.recv_slots =~= initial_connection(now_ms).recv_slots);
            assert(r@.sent_slots =~= initial_connection(now_ms).sent_slots);
            assert(r@ =~= initial_connection(now_ms));
        }
        r
    }

    pub fn queue_message(&mut self, message: &[u8])
        requires
            old(self).inv(),
            message@.len() <= u16::MAX,
        ensures
            final(self).inv(),
            final(self)@ == (ConnModel {
                queue: spec_queue_message(old(self)@.queue, message@),
                ..old(self)@
            }),
    {
        self.message_queue.queue_message(message);
        proof {
            assert(final(self)@ =~= (ConnModel {
                queue: spec_queue_message(old(self)@.queue, message@),
                ..old(self)@
            }));
        }
    }

    pub fn recv_messages(&mut self) -> (r: Vec<Vec<u8>>)
        requires
            old(self).inv(),
        ensures
            final(self).inv(),
            r@.map_values(|v: Vec<u8>| v@) == old(self)@.queue.ready,
            final(self)@ == (ConnModel {
                queue: QueueModel { ready: Seq::empty(), ..old(self)@.queue },
                ..old(self)@
            }),
    {
        let r = self.message_queue.recv_next_all();
        proof {
            assert(final(self)@ =~= (ConnModel {
                queue: QueueModel { ready: Seq::empty(), ..old(self)@.queue },
                ..old(self)@
            }));
        }
        r
    }

    /// The smoothed round-trip estimate in whole milliseconds, for
    /// observability by the owning client or server loop.
    pub fn rtt_millis(&self) -> (r: u64)
        ensures
            r == self@.rtt_micros / 1000,
    {
        self.rtt_micros / 1000
    }
}

/// The ack list built before sending: for each of the 32 most recent
/// sequence numbers counting back from `last_seq`, the number is included
/// when its history slot still records exactly that number.
pub open spec fn spec_gather_acks(recv_slots: Seq<Option<u16>>, last_seq: u16, i: int) -> Seq<u16>
    decreases 32 - i,
{
    if i < 0 || i >= 32 {
        Seq::empty()
    } else {
        let candidate = u16_specs::wrapping_sub(last_seq, i as u16);
        let head = match recv_slots[candidate as int % (BUFFER_SIZE as int)] {
            Some(buffered) => if buffered == candidate {
                seq![candidate]
            } else {
                Seq::empty()
            },
            None => Seq::empty(),
        };
        head + spec_gather_acks(recv_slots, last_seq, i + 1)
    }
}

/// What one `send` call does: the slot for this sequence number is claimed
/// (counting as lost whatever unacknowledged packet it still held), the ack
/// list and the next payload are gathered, and the datagram bytes are the
/// encoding of the resulting packet; the sequence number and the sent
/// counter advance.
pub open spec fn spec_send(c: ConnModel, now_ms: u64) -> (ConnModel, Seq<u8>) {
    let idx = c.sequence as int % (BUFFER_SIZE as int);
    let lost = match c.sent_slots[idx] {
        Some(st) => if st is UnAcknowledged {
            u32_specs::wrapping_add(c.lost_packets, 1)
        } else {
            c.lost_packets
        },
        None => c.lost_packets,
    };
    let sent_slots = c.sent_slots.update(
        idx,
        Some(PacketState::UnAcknowledged(PacketData { seq: c.sequence, sent_time_ms: now_ms })),
    );
    let acks = spec_gather_acks(c.recv_slots, c.last_received_sequence, 0);
    let sn = spec_send_next(c.queue, c.sequence, BYTE_BUDGET);
    let bytes = spec_encode(c.sequence, c.last_received_sequence, acks, sn.1);
    (
        ConnModel {
            sequence: u16_specs::wrapping_add(c.sequence, 1),
            sent_packets: u32_specs::wrapping_add(c.sent_packets, 1),
            last_sent_at_ms: now_ms,
            lost_packets: lost,
            sent_slots: sent_slots,
            queue: sn.0,
            ..c
        },
        bytes,
    )
}

impl Connection {
    /// Build the next outgoing datagram and account for it. The caller
    /// transmits the returned bytes; timestamps must come from a monotonic
    /// clock, so `now_ms` is never behind the last send.
    pub fn send(&mut self, now_ms: u64) -> (datagram: Vec<u8>)
        requires
            old(self).inv(),
            old(self).last_sent_at_ms <= now_ms,
            now_ms < MAX_TIME_MS,
        ensures
            final(self).inv(),
            final(self)@ == spec_send(old(self)@, now_ms).0,
            datagram@ == spec_send(old(self)@, now_ms).1,
    {
        let index = (self.sequence as usize) % BUFFER_SIZE;

        // the slot being claimed still holds an unacknowledged packet: the
        // sequence space wrapped a full buffer before its ack came, so it
        // is presumed lost
        let mut presumed_lost: bool = false;
        match self.sent_ack_buffer[index] {
            Some(PacketState::UnAcknowledged(_)) => {
                presumed_lost = true;
            },
            _ => {},
        }
        if presumed_lost {
            self.lost_packets = self.lost_packets.wrapping_add(1);
        }

        self.sent_ack_buffer[index] = Some(
            PacketState::UnAcknowledged(PacketData { seq: self.sequence, sent_time_ms: now_ms }),
        );

        let ghost slots = self@.recv_slots;
        let ghost last_seq = self.last_received_sequence;
        let ghost target_acks = spec_gather_acks(slots, last_seq, 0);

        let mut acks: Vec<u16> = Vec::new();
        let mut i: u16 = 0;
        while i < 32
            invariant
                i <= 32,
                slots == self@.recv_slots,
                last_seq == self.last_received_sequence,
                slots.len() == BUFFER_SIZE,
                target_acks == spec_gather_acks(slots, last_seq, 0),
                target_acks == acks@ + spec_gather_acks(slots, last_seq, i as int),
            decreases 32 - i,
        {
            let ghost acks0 = acks@;
            let candidate = self.last_received_sequence.wrapping_sub(i);
            let slot_index = (candidate as usize) % BUFFER_SIZE;
            let mut keep: bool = false;
            match self.recv_ack_buffer[slot_index] {
                Some(buffered) => {
                    if buffered == candidate {
                        keep = true;
                    }
                },
                None => {},
            }
            if keep {
                acks.push(candidate);
            }
            proof {
                let tail = spec_gather_acks(slots, last_seq, i + 1);
                if keep {
                    assert(spec_gather_acks(slots, last_seq, i as int) == seq![candidate] + tail);
                    assert(acks0 + (seq![candidate] + tail) =~= acks@ + tail);
                } else {
                    assert(spec_gather_acks(slots, last_seq, i as int) == Seq::<u16>::empty()
                        + tail);
                    assert(acks0 + (Seq::<u16>::empty() + tail) =~= acks@ + tail);
                }
            }
            i = i + 1;
        }
        proof {
            assert(acks@ + Seq::<u16>::empty() =~= acks@);
        }

        let data = self.message_queue.send_next(self.sequence, BYTE_BUDGET);
        let packet = Packet::new(self.sequence, self.last_received_sequence, acks, data);
        let datagram = packet.into_vec();

        self.sequence = self.sequence.wrapping_add(1);
        self.sent_packets = self.sent_packets.wrapping_add(1);
        self.last_sent_at_ms = now_ms;

        proof {
            assert(self@.sent_slots =~= spec_send(old(self)@, now_ms).0.sent_slots);
            assert(self@ =~= spec_send(old(self)@, now_ms).0);
        }
        datagram
    }
}

/// What confirming one acked sequence number does: a slot still waiting on
/// exactly that ack transitions to acknowledged, the acked counter advances,
/// the message queue retires the messages the stored packet carried, and
/// the round-trip estimate absorbs the elapsed time; anything else — an
/// empty slot or one already acknowledged — is a stale or duplicate ack and
/// changes nothing.
pub open spec fn spec_process_ack(c: ConnModel, seq: u16, now_ms: u64) -> ConnModel {
    let idx = seq as int % (BUFFER_SIZE as int);
    match c.sent_slots[idx] {
        Some(st) => if st is UnAcknowledged {
            let pdata = st.data();
            ConnModel {
                sent_slots: c.sent_slots.update(idx, Some(PacketState::Acknowledged(pdata))),
                acked_packets: u32_specs::wrapping_add(c.acked_packets, 1),
                queue: spec_acknowledge(c.queue, pdata.seq),
                rtt_micros: spec_smooth_rtt(
                    c.rtt_micros,
                    ((now_ms - pdata.sent_time_ms) * 1000) as u64,
                ),
                ..c
            }
        } else {
            c
        },
        None => c,
    }
}

pub open spec fn spec_process_acks(c: ConnModel, acks: Seq<u16>, now_ms: u64) -> ConnModel
    decreases acks.len(),
{
    if acks.len() == 0 {
        c
    } else {
        spec_process_acks(spec_process_ack(c, acks[0], now_ms), acks.drop_first(), now_ms)
    }
}

/// What consuming one well-formed datagram (at least 8 bytes) does: the
/// recency window and receive history absorb the packet's sequence number,
/// the payload's records go to the message queue, and every acked sequence
/// number in the bitfield is confirmed in turn.
pub open spec fn spec_receive(c: ConnModel, bytes: Seq<u8>, now_ms: u64) -> ConnModel {
    let sequence = u16_of_be_bytes(bytes[0], bytes[1]);
    let ack = u16_of_be_bytes(bytes[2], bytes[3]);
    let acks = decoded_acks(ack, u32_of_be_bytes(bytes[4], bytes[5], bytes[6], bytes[7]));
    let payload = bytes.skip(8);
    let c1 = ConnModel {
        recv_packets: u32_specs::wrapping_add(c.recv_packets, 1),
        last_received_sequence: if spec_is_recent(sequence, c.last_received_sequence) {
            sequence
        } else {
            c.last_received_sequence
        },
        last_received_at_ms: now_ms,
        recv_slots: c.recv_slots.update(sequence as int % (BUFFER_SIZE as int), Some(sequence)),
        queue: spec_recv_messages(c.queue, payload),
        ..c
    };
    spec_process_acks(c1, acks, now_ms)
}

impl Connection {
    /// Consume one datagram already known to come from this connection's
    /// peer. A datagram too short to hold a header is reported and changes
    /// nothing. Timestamps come from a monotonic clock, so `now_ms` is
    /// never behind the last send or receive.
    pub fn receive_packet(&mut self, data: &[u8], now_ms: u64) -> (r: Result<(), ParseError>)
        requires
            old(self).inv(),
            old(self).last_sent_at_ms <= now_ms,
            old(self).last_received_at_ms <= now_ms,
            now_ms < MAX_TIME_MS,
        ensures
            final(self).inv(),
            data@.len() < 8 ==> (r matches Err(e) && e == ParseError::SliceTooShort)
                && *final(self) == *old(self),
            data@.len() >= 8 ==> (r is Ok)
                && final(self)@ == spec_receive(old(self)@, data@, now_ms),
    {
        let packet = match Packet::from_slice(data) {
            Ok(packet) => packet,
            Err(e) => {
                return Err(e);
            },
        };
        self.recv_packets = self.recv_packets.wrapping_add(1);

        // adopt the sequence number when it is ahead of the current one in
        // the half-range wraparound order
        if is_recent(packet.sequence, self.last_received_sequence) {
            self.last_received_sequence = packet.sequence;
        }

        self.last_received_at_ms = now_ms;

        // record the sequence number for the ack bitfields of later sends
        let index = (packet.sequence as usize) % BUFFER_SIZE;
        self.recv_ack_buffer[index] = Some(packet.sequence);

        self.message_queue.recv_messages(packet.data.as_slice());

        let ghost c1 = ConnModel {
            recv_packets: u32_specs::wrapping_add(old(self).recv_packets, 1),
            last_received_sequence: if spec_is_recent(
                u16_of_be_bytes(data@[0], data@[1]),
                old(self).last_received_sequence,
            ) {
                u16_of_be_bytes(data@[0], data@[1])
            } else {
                old(self).last_received_sequence
            },
            last_received_at_ms: now_ms,
            recv_slots: old(self)@.recv_slots.update(
                u16_of_be_bytes(data@[0], data@[1]) as int % (BUFFER_SIZE as int),
                Some(u16_of_be_bytes(data@[0], data@[1])),
            ),
            queue: spec_recv_messages(old(self)@.queue, data@.skip(8)),
            ..old(self)@
        };
        proof {
            assert(self@ =~= c1);
        }

        let ghost all_acks = packet.acks@;
        proof {
            assert(all_acks.skip(0) =~= all_acks);
        }
        let mut k: usize = 0;
        while k < packet.acks.len()
            invariant
                self.inv(),
                k <= all_acks.len(),
                all_acks == packet.acks@,
                self.last_sent_at_ms <= now_ms,
                now_ms < MAX_TIME_MS,
                spec_process_acks(c1, all_acks, now_ms) == spec_process_acks(
                    self@,
                    all_acks.skip(k as int),
                    now_ms,
                ),
            decreases all_acks.len() - k,
        {
            let ghost cstep = self@;
            let ghost suffix = all_acks.skip(k as int);
            proof {
                assert(suffix[0] == all_acks[k as int]);
                assert(suffix.drop_first() =~= all_acks.skip(k + 1));
            }
            let seq_acked = packet.acks[k];
            let slot_index = (seq_acked as usize) % BUFFER_SIZE;

            let mut awaiting: Option<PacketData> = None;
            match self.sent_ack_buffer[slot_index] {
                Some(PacketState::UnAcknowledged(pdata)) => {
                    awaiting = Some(pdata);
                },
                _ => {},
            }
            if let Some(pdata) = awaiting {
                self.sent_ack_buffer[slot_index] = Some(PacketState::Acknowledged(pdata));
                self.acked_packets = self.acked_packets.wrapping_add(1);

                // retire the messages that the acked packet carried
                self.message_queue.acknowledge(pdata.seq);

                let sample_ms = now_ms - pdata.sent_time_ms;
                let sample_micros = sample_ms * 1000;
                self.rtt_micros = smoothed_average(self.rtt_micros, sample_micros);
                proof {
                    lemma_rtt_convergence(cstep.rtt_micros, sample_micros);
                    assert(self@.sent_slots =~= spec_process_ack(cstep, seq_acked, now_ms)
                        .sent_slots);
                    assert(self@ =~= spec_process_ack(cstep, seq_acked, now_ms));
                }
            } else {
                proof {
                    assert(self@ =~= spec_process_ack(cstep, seq_acked, now_ms));
                }
            }
            k = k + 1;
        }
        proof {
            assert(all_acks.skip(all_acks.len() as int) =~= Seq::<u16>::empty());
            assert(data@.len() >= 8);
            assert(self@ == spec_receive(old(self)@, data@, now_ms));
        }
        Ok(())
    }
}

/// The connection state after a run of consecutive `send` calls at the
/// given times, with nothing received in between.
pub open spec fn spec_send_times(c: ConnModel, times: Seq<u64>) -> ConnModel
    decreases times.len(),
{
    if times.len() == 0 {
        c
    } else {
        spec_send_times(spec_send(c, times[0]).0, times.drop_first())
    }
}

/// Every send-history slot holds a packet that is still waiting for its ack.
pub open spec fn all_slots_unacked(c: ConnModel) -> bool {
    forall|i: int|
        0 <= i < BUFFER_SIZE ==> ((#[trigger] c.sent_slots[i]) matches Some(st)
            && st is UnAcknowledged)
}

/// The history slot that the `s`-th send after sequence number `seq0` claims.
pub open spec fn slot_of(seq0: u16, s: int) -> int {
    (u16_specs::wrapping_add(seq0, s as u16) as int) % (BUFFER_SIZE as int)
}

proof fn lemma_sends_append(c: ConnModel, t1: Seq<u64>, t2: Seq<u64>)
    ensures
        spec_send_times(c, t1 + t2) == spec_send_times(spec_send_times(c, t1), t2),
    decreases t1.len(),
{
    if t1.len() == 0 {
        assert(t1 + t2 =~= t2);
    } else {
        assert((t1 + t2)[0] == t1[0]);
        assert((t1 + t2).drop_first() =~= t1.drop_first() + t2);
        lemma_sends_append(spec_send(c, t1[0]).0, t1.drop_first(), t2);
    }
}

/// After `n <= BUFFER_SIZE` sends, the `n` freshly claimed slots wait
/// unacknowledged, every other slot is untouched, and each send adds at
/// most one presumed loss.
proof fn lemma_sends_claim_slots(c: ConnModel, times: Seq<u64>)
    requires
        c.sent_slots.len() == BUFFER_SIZE,
        times.len() <= BUFFER_SIZE,
        c.lost_packets + times.len() <= u32::MAX,
    ensures
        ({
            let c2 = spec_send_times(c, times);
            let n = times.len() as int;
            &&& c2.sent_slots.len() == BUFFER_SIZE
            &&& c.lost_packets <= c2.lost_packets <= c.lost_packets + n
            &&& forall|s: int|
                0 <= s < n ==> ((#[trigger] c2.sent_slots[slot_of(c.sequence, s)]) matches Some(
                st) && st is UnAcknowledged)
            &&& forall|i: int|
                0 <= i < BUFFER_SIZE && (forall|s: int| 0 <= s < n ==> i != slot_of(c.sequence, s))
                    ==> (#[trigger] c2.sent_slots[i]) == c.sent_slots[i]
        }),
    decreases times.len(),
{
    if times.len() > 0 {
        let c1 = spec_send(c, times[0]).0;
        let n = times.len() as int;
        assert(c1.sent_slots[slot_of(c.sequence, 0)] == Some(
            PacketState::UnAcknowledged(PacketData { seq: c.sequence, sent_time_ms: times[0] }),
        ));
        lemma_sends_claim_slots(c1, times.drop_first());
        let c2 = spec_send_times(c1, times.drop_first());
        assert(spec_send_times(c, times) == c2);
        assert forall|s: int| 1 <= s < n implies slot_of(c1.sequence, s - 1) == slot_of(
            c.sequence,
            s,
        ) by {
            assert(u16_specs::wrapping_add(c1.sequence, (s - 1) as u16) == u16_specs::wrapping_add(
                c.sequence,
                s as u16,
            ));
        }
        assert forall|s: int|
            0 <= s < n implies (#[trigger] c2.sent_slots[slot_of(c.sequence, s)]) matches Some(st)
            && st is UnAcknowledged by {
            if s == 0 {
                let i0 = slot_of(c.sequence, 0);
                if forall|t: int| 0 <= t < n - 1 ==> i0 != slot_of(c1.sequence, t) {
                    assert(c2.sent_slots[i0] == c1.sent_slots[i0]);
                } else {
                    let t = choose|t: int| 0 <= t < n - 1 && i0 == slot_of(c1.sequence, t);
                }
            } else {
                assert(slot_of(c.sequence, s) == slot_of(c1.sequence, s - 1));
            }
        }
        assert forall|i: int|
            0 <= i < BUFFER_SIZE && (forall|s: int| 0 <= s < n ==> i != slot_of(c.sequence, s))
                implies (#[trigger] c2.sent_slots[i]) == c.sent_slots[i] by {
            assert(i != slot_of(c.sequence, 0));
            assert forall|t: int| 0 <= t < n - 1 implies i != slot_of(c1.sequence, t) by {
                assert(slot_of(c1.sequence, t) == slot_of(c.sequence, t + 1));
            }
            assert(c2.sent_slots[i] == c1.sent_slots[i]);
            assert(c1.sent_slots[i] == c.sent_slots[i]);
        }
    }
}

/// With every slot already unacknowledged, each further send overwrites an
/// unacknowledged packet: one presumed loss per send, and the buffer stays
/// fully unacknowledged.
proof fn lemma_sends_all_unacked(c: ConnModel, times: Seq<u64>)
    requires
        c.sent_slots.len() == BUFFER_SIZE,
        all_slots_unacked(c),
        c.lost_packets + times.len() <= u32::MAX,
    ensures
        spec_send_times(c, times).lost_packets == c.lost_packets + times.len(),
        spec_send_times(c, times).sent_slots.len() == BUFFER_SIZE,
        all_slots_unacked(spec_send_times(c, times)),
    decreases times.len(),
{
    if times.len() > 0 {
        let c1 = spec_send(c, times[0]).0;
        assert(c.sent_slots[c.sequence as int % (BUFFER_SIZE as int)] matches Some(st)
            && st is UnAcknowledged);
        assert(c1.lost_packets == c.lost_packets + 1);
        assert(all_slots_unacked(c1)) by {
            assert forall|i: int|
                0 <= i < BUFFER_SIZE implies (#[trigger] c1.sent_slots[i]) matches Some(st)
                && st is UnAcknowledged by {
                if i != c.sequence as int % (BUFFER_SIZE as int) {
                    assert(c1.sent_slots[i] == c.sent_slots[i]);
                }
            }
        }
        lemma_sends_all_unacked(c1, times.drop_first());
    }
}

/// Loss inference law: a run of consecutive sends with no acknowledgment in
/// between cycles through the `BUFFER_SIZE` history slots; once they are
/// exhausted, every further send overwrites a packet still waiting for its
/// ack, so at least one presumed loss is counted per send beyond the
/// buffer's wraparound point.
pub proof fn lemma_loss_inference(c: ConnModel, times: Seq<u64>)
    requires
        c.sent_slots.len() == BUFFER_SIZE,
        BUFFER_SIZE < times.len() <= u16::MAX,
        c.lost_packets + times.len() <= u32::MAX,
    ensures
        spec_send_times(c, times).lost_packets >= c.lost_packets + (times.len() - BUFFER_SIZE),
{
    let t1 = times.take(BUFFER_SIZE as int);
    let t2 = times.skip(BUFFER_SIZE as int);
    assert(t1 + t2 =~= times);
    lemma_sends_append(c, t1, t2);
    lemma_sends_claim_slots(c, t1);
    let c_mid = spec_send_times(c, t1);
    assert(all_slots_unacked(c_mid)) by {
        assert forall|i: int|
            0 <= i < BUFFER_SIZE implies (#[trigger] c_mid.sent_slots[i]) matches Some(st)
            && st is UnAcknowledged by {
            let r = c.sequence as int % (BUFFER_SIZE as int);
            let s = if i >= r {
                i - r
            } else {
                i + (BUFFER_SIZE as int) - r
            };
            lemma_slot_coverage(c.sequence, s as u16, i as u16);
            assert(i == slot_of(c.sequence, s));
        }
    }
    lemma_sends_all_unacked(c_mid, t2);
}

/// The send that sits `s` steps after base sequence number `seq0` claims
/// history slot `i` exactly when `s` is the in-buffer offset from the
/// base's own slot to `i`.
proof fn lemma_slot_coverage(seq0: u16, s: u16, i: u16)
    by (bit_vector)
    requires
        s < 128,
        i < 128,
        (seq0 % 128) <= i ==> s == i - (seq0 % 128),
        (seq0 % 128) > i ==> s == i + 128 - (seq0 % 128),
    ensures
        u16_specs::wrapping_add(seq0, s) % 128 == i,
{
}

} // verus!
