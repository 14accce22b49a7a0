//! Per-connection reliable, ordered messaging: assigns monotonic message
//! ids, packs pending messages into outgoing payloads within a byte budget,
//! retires messages once their carrying packet is acknowledged, and reorders
//! inbound records into exactly-once, in-order delivery.
use std::collections::HashMap;
use vstd::prelude::*;
use vstd::wrapping::u16_specs;
use crate::message::Message;
use crate::message::message_into_vec;
use crate::message::message_record;
use crate::message::spec_parse_records_lossy;
use crate::recency::is_recent;
use crate::recency::spec_is_recent;

verus! {

broadcast use vstd::std_specs::hash::group_hash_axioms;

/// Capacity of the circular send buffer: the number of message ids that can
/// be outstanding at once.
pub const BUFFER_SIZE: usize = 256;

/// Mathematical model of a message queue: plain sequences and maps in place
/// of the vectors and the hash map of the executable state.
#[verifier::ext_equal]
pub struct QueueModel {
    /// Next message id to assign to an outgoing message.
    pub sequence_local: u16,
    /// Watermark: the highest retired outgoing message id, lower scan bound.
    pub recent_acked: u16,
    /// Next inbound message id owed to the application.
    pub sequence_remote: u16,
    /// Which message ids each outgoing packet carried, by packet sequence.
    pub awaiting_ack: Map<u16, Seq<u16>>,
    /// The circular send buffer, slot `id % BUFFER_SIZE`.
    pub send_slots: Seq<Option<(u16, Seq<u8>)>>,
    /// Inbound messages ahead of `sequence_remote`, awaiting their turn.
    pub pending: Seq<(u16, Seq<u8>)>,
    /// Delivered payloads not yet picked up by the application.
    pub ready: Seq<Seq<u8>>,
}

impl QueueModel {
    /// Well-formedness: the send buffer has its fixed size and every occupant
    /// sits in the slot its id maps to; pending messages are strictly ahead
    /// of the delivery watermark and carry distinct ids.
    pub open spec fn wf(self) -> bool {
        &&& self.send_slots.len() == BUFFER_SIZE
        &&& forall|i: int|
            0 <= i < BUFFER_SIZE ==> ((#[trigger] self.send_slots[i]) matches Some(m) ==> (
            m.0 as int % (BUFFER_SIZE as int) == i && m.1.len() <= u16::MAX))
        &&& forall|j: int|
            0 <= j < self.pending.len() ==> spec_is_recent(
                (#[trigger] self.pending[j]).0,
                self.sequence_remote,
            ) && self.pending[j].1.len() <= u16::MAX
        &&& forall|j1: int, j2: int|
            0 <= j1 < j2 < self.pending.len() ==> (#[trigger] self.pending[j1]).0 != (
            #[trigger] self.pending[j2]).0
    }
}

/// The model of a freshly constructed queue.
pub open spec fn initial_queue() -> QueueModel {
    QueueModel {
        sequence_local: 0,
        recent_acked: 0,
        sequence_remote: 0,
        awaiting_ack: Map::empty(),
        send_slots: Seq::new(BUFFER_SIZE as nat, |i: int| None),
        pending: Seq::empty(),
        ready: Seq::empty(),
    }
}

pub struct MessageQueue {
    pub sequence_local: u16,
    pub recent_acked: u16,
    pub sequence_remote: u16,
    pub awaiting_ack: HashMap<u16, Vec<u16>>,
    pub send_queue: Vec<Option<Message>>,
    pub recv_queue: Vec<Message>,
    pub recv: Vec<Vec<u8>>,
}

impl View for MessageQueue {
    type V = QueueModel;

    open spec fn view(&self) -> QueueModel {
        QueueModel {
            sequence_local: self.sequence_local,
            recent_acked: self.recent_acked,
            sequence_remote: self.sequence_remote,
            awaiting_ack: Map::new(
                |k: u16| self.awaiting_ack@.contains_key(k),
                |k: u16| self.awaiting_ack@[k]@,
            ),
            send_slots: self.send_queue@.map_values(
                |o: Option<Message>|
                    match o {
                        Some(m) => Some((m.id, m.data@)),
                        None => None,
                    },
            ),
            pending: self.recv_queue@.map_values(|m: Message| (m.id, m.data@)),
            ready: self.recv@.map_values(|v: Vec<u8>| v@),
        }
    }
}

impl MessageQueue {
    /// Full invariant: the model is well-formed and every stored message's
    /// size field agrees with its payload length.
    pub open spec fn inv(&self) -> bool {
        &&& self@.wf()
        &&& forall|i: int|
            0 <= i < self.send_queue@.len() ==> ((#[trigger] self.send_queue@[i]) matches Some(m)
                ==> m.size == m.data@.len())
        &&& forall|j: int|
            0 <= j < self.recv_queue@.len() ==> (#[trigger] self.recv_queue@[j]).size
                == self.recv_queue@[j].data@.len()
    }

    pub fn new() -> (r: Self)
        ensures
            r.inv(),
            r@ == initial_queue(),
    {
        let mut send_queue: Vec<Option<Message>> = Vec::new();
        let mut i: usize = 0;
        while i < BUFFER_SIZE
            invariant
                i <= BUFFER_SIZE,
                send_queue@.len() == i,
                forall|j: int| 0 <= j < i ==> (#[trigger] send_queue@[j]) is None,
            decreases BUFFER_SIZE - i,
        {
            send_queue.push(None);
            i = i + 1;
        }
        let r = MessageQueue {
            sequence_local: 0,
            recent_acked: 0,
            sequence_remote: 0,
            awaiting_ack: HashMap::new(),
            send_queue,
            recv_queue: Vec::new(),
            recv: Vec::new(),
        };
        proof {
            assert(r@.awaiting_ack =~= initial_queue().awaiting_ack);
            assert(r@.send_slots =~= initial_queue().send_slots);
            assert(r@.pending =~= initial_queue().pending);
            assert(r@.ready =~= initial_queue().ready);
            assert(r@ =~= initial_queue());
        }
        r
    }
}

/// What queuing one outgoing message does: the message takes the next local
/// id, lands in its send-buffer slot, and the id counter advances, wrapping.
pub open spec fn spec_queue_message(q: QueueModel, msg: Seq<u8>) -> QueueModel {
    QueueModel {
        sequence_local: u16_specs::wrapping_add(q.sequence_local, 1),
        send_slots: q.send_slots.update(
            q.sequence_local as int % (BUFFER_SIZE as int),
            Some((q.sequence_local, msg)),
        ),
        ..q
    }
}

impl MessageQueue {
    /// Enqueue one outgoing message. The send buffer is a fixed ring of
    /// `BUFFER_SIZE` slots: queuing more than `BUFFER_SIZE` messages before
    /// their acks arrive overwrites the oldest slot, so that many
    /// unacknowledged messages is the capacity limit a caller must respect.
    pub fn queue_message(&mut self, message: &[u8])
        requires
            old(self).inv(),
            message@.len() <= u16::MAX,
        ensures
            final(self).inv(),
            final(self)@ == spec_queue_message(old(self)@, message@),
    {
        let new_message = Message {
            id: self.sequence_local,
            size: message.len() as u16,
            data: vstd::slice::slice_to_vec(message),
        };
        let idx = (self.sequence_local as usize) % BUFFER_SIZE;
        self.send_queue[idx] = Some(new_message);
        self.sequence_local = self.sequence_local.wrapping_add(1);
        proof {
            assert(self@.send_slots =~= spec_queue_message(old(self)@, message@).send_slots);
            assert(self@ =~= spec_queue_message(old(self)@, message@));
        }
    }
}

/// Forward wraparound distance from `from` to `to` in the 16-bit id space.
pub open spec fn wrap_distance(from: u16, to: u16) -> nat {
    u16_specs::wrapping_sub(to, from) as nat
}

/// One pass over `n` consecutive ids starting at `cur`: each id whose slot
/// holds its message adds the message's size to the running byte count and
/// is included — id and record bytes — while the count stays under `amt`.
/// A message over the budget still consumes budget for those after it.
pub open spec fn spec_send_scan(
    slots: Seq<Option<(u16, Seq<u8>)>>,
    cur: u16,
    n: nat,
    amt: u16,
    written: int,
) -> (Seq<u16>, Seq<u8>)
    decreases n,
{
    if n == 0 {
        (Seq::empty(), Seq::empty())
    } else {
        let next = u16_specs::wrapping_add(cur, 1);
        match slots[cur as int % (BUFFER_SIZE as int)] {
            Some(m) => {
                if m.0 == cur {
                    let w2 = written + m.1.len();
                    let rest = spec_send_scan(slots, next, (n - 1) as nat, amt, w2);
                    if w2 < amt {
                        (
                            seq![cur] + rest.0,
                            message_record(cur, m.1.len() as u16, m.1) + rest.1,
                        )
                    } else {
                        rest
                    }
                } else {
                    spec_send_scan(slots, next, (n - 1) as nat, amt, written)
                }
            },
            None => spec_send_scan(slots, next, (n - 1) as nat, amt, written),
        }
    }
}

/// What one `send_next` call does: scan the ids from the watermark up to the
/// next unassigned id, record which ids ride in packet `sequence`, and hand
/// back their concatenated record bytes.
pub open spec fn spec_send_next(q: QueueModel, sequence: u16, amt: u16) -> (QueueModel, Seq<u8>) {
    let scan = spec_send_scan(
        q.send_slots,
        q.recent_acked,
        wrap_distance(q.recent_acked, q.sequence_local),
        amt,
        0,
    );
    (QueueModel { awaiting_ack: q.awaiting_ack.insert(sequence, scan.0), ..q }, scan.1)
}

impl MessageQueue {
    pub fn send_next(&mut self, sequence: u16, amt: u16) -> (data: Vec<u8>)
        requires
            old(self).inv(),
        ensures
            final(self).inv(),
            final(self)@ == spec_send_next(old(self)@, sequence, amt).0,
            data@ == spec_send_next(old(self)@, sequence, amt).1,
    {
        let ghost slots = self@.send_slots;
        let ghost total_n = wrap_distance(self.recent_acked, self.sequence_local);
        let ghost target = spec_send_scan(slots, self.recent_acked, total_n, amt, 0);

        let mut data: Vec<u8> = Vec::new();
        let mut ack_ids: Vec<u16> = Vec::new();
        let mut written: u64 = 0;
        let mut cur: u16 = self.recent_acked;
        let total: u16 = self.sequence_local.wrapping_sub(self.recent_acked);
        let mut k: u16 = 0;

        while k < total
            invariant
                self.inv(),
                slots == self@.send_slots,
                k <= total,
                total_n == total as nat,
                cur == u16_specs::wrapping_add(self.recent_acked, k),
                written <= k as int * 0xffff,
                target == (
                    ack_ids@ + spec_send_scan(
                        slots,
                        cur,
                        (total - k) as nat,
                        amt,
                        written as int,
                    ).0,
                    data@ + spec_send_scan(slots, cur, (total - k) as nat, amt, written as int).1,
                ),
            decreases total - k,
        {
            let ghost n_left = (total - k) as nat;
            let ghost written0 = written as int;
            let ghost ids0 = ack_ids@;
            let ghost data0 = data@;

            let idx = (cur as usize) % BUFFER_SIZE;
            proof {
                assert(slots[idx as int] == match self.send_queue@[idx as int] {
                    Some(m) => Some((m.id, m.data@)),
                    None => None::<(u16, Seq<u8>)>,
                });
            }
            let mut take_message: bool = false;
            match &self.send_queue[idx] {
                Some(message) => {
                    if message.id == cur {
                        written = written + message.size as u64;
                        if written < amt as u64 {
                            take_message = true;
                        }
                    }
                },
                None => {},
            }
            if take_message {
                let msg_ref = self.send_queue[idx].as_ref().unwrap();
                let mut mbytes = message_into_vec(msg_ref);
                data.append(&mut mbytes);
                ack_ids.push(cur);
                proof {
                    let m = slots[idx as int].unwrap();
                    let w2 = written0 + m.1.len();
                    let rec = message_record(cur, m.1.len() as u16, m.1);
                    let inner_rest = spec_send_scan(
                        slots,
                        u16_specs::wrapping_add(cur, 1),
                        (n_left - 1) as nat,
                        amt,
                        w2,
                    );
                    assert(spec_send_scan(slots, cur, n_left, amt, written0) == (
                        seq![cur] + inner_rest.0,
                        rec + inner_rest.1,
                    ));
                    assert(ids0 + (seq![cur] + inner_rest.0) =~= ack_ids@ + inner_rest.0);
                    assert(data0 + (rec + inner_rest.1) =~= data@ + inner_rest.1);
                }
            } else {
                proof {
                    let slot = slots[idx as int];
                    if slot is Some && slot.unwrap().0 == cur {
                        let m = slot.unwrap();
                        let w2 = written0 + m.1.len();
                        assert(w2 >= amt);
                        assert(spec_send_scan(slots, cur, n_left, amt, written0)
                            == spec_send_scan(
                            slots,
                            u16_specs::wrapping_add(cur, 1),
                            (n_left - 1) as nat,
                            amt,
                            w2,
                        ));
                    } else {
                        assert(spec_send_scan(slots, cur, n_left, amt, written0)
                            == spec_send_scan(
                            slots,
                            u16_specs::wrapping_add(cur, 1),
                            (n_left - 1) as nat,
                            amt,
                            written0,
                        ));
                    }
                }
            }
            cur = cur.wrapping_add(1);
            k = k + 1;
        }

        proof {
            assert(spec_send_scan(slots, cur, 0, amt, written as int) == (
                Seq::<u16>::empty(),
                Seq::<u8>::empty(),
            ));
            assert(ack_ids@ + Seq::<u16>::empty() =~= ack_ids@);
            assert(data@ + Seq::<u8>::empty() =~= data@);
        }

        self.awaiting_ack.insert(sequence, ack_ids);

        proof {
            assert(self@.awaiting_ack =~= spec_send_next(old(self)@, sequence, amt).0.awaiting_ack);
            assert(self@ =~= spec_send_next(old(self)@, sequence, amt).0);
        }
        data
    }
}

/// Retiring one list of message ids: each id whose slot still holds its
/// message clears that slot, and the watermark rises to the id when the id
/// is ahead of it in wraparound order.
pub open spec fn spec_ack_list(
    slots: Seq<Option<(u16, Seq<u8>)>>,
    watermark: u16,
    ids: Seq<u16>,
) -> (Seq<Option<(u16, Seq<u8>)>>, u16)
    decreases ids.len(),
{
    if ids.len() == 0 {
        (slots, watermark)
    } else {
        let id = ids[0];
        let rest = ids.drop_first();
        match slots[id as int % (BUFFER_SIZE as int)] {
            Some(m) => {
                if m.0 == id {
                    let w2 = if spec_is_recent(id, watermark) {
                        id
                    } else {
                        watermark
                    };
                    spec_ack_list(slots.update(id as int % (BUFFER_SIZE as int), None), w2, rest)
                } else {
                    spec_ack_list(slots, watermark, rest)
                }
            },
            None => spec_ack_list(slots, watermark, rest),
        }
    }
}

/// What acknowledging packet `pid` does: when the packet is on record, the
/// message ids it carried are retired and the record is dropped; otherwise
/// the ack is stale or duplicate and nothing changes.
pub open spec fn spec_acknowledge(q: QueueModel, pid: u16) -> QueueModel {
    if q.awaiting_ack.contains_key(pid) {
        let r = spec_ack_list(q.send_slots, q.recent_acked, q.awaiting_ack[pid]);
        QueueModel {
            send_slots: r.0,
            recent_acked: r.1,
            awaiting_ack: q.awaiting_ack.remove(pid),
            ..q
        }
    } else {
        q
    }
}

impl MessageQueue {
    pub fn acknowledge(&mut self, pid: u16)
        requires
            old(self).inv(),
        ensures
            final(self).inv(),
            final(self)@ == spec_acknowledge(old(self)@, pid),
    {
        let ids = match self.awaiting_ack.remove(&pid) {
            Some(ids) => ids,
            None => {
                proof {
                    assert(!old(self)@.awaiting_ack.contains_key(pid));
                    assert(self@.awaiting_ack =~= old(self)@.awaiting_ack);
                    assert(self@ =~= old(self)@);
                }
                return ;
            },
        };
        let ghost target = spec_ack_list(old(self)@.send_slots, old(self).recent_acked, ids@);

        proof {
            assert(ids@.skip(0) =~= ids@);
            assert(self@.send_slots =~= old(self)@.send_slots);
            assert(self@.pending =~= old(self)@.pending);
            assert(self@.ready =~= old(self)@.ready);
            assert(self@.awaiting_ack =~= old(self)@.awaiting_ack.remove(pid));
        }

        let mut j: usize = 0;
        while j < ids.len()
            invariant
                self.inv(),
                j <= ids@.len(),
                target == spec_ack_list(self@.send_slots, self.recent_acked, ids@.skip(j as int)),
                self.sequence_local == old(self).sequence_local,
                self.sequence_remote == old(self).sequence_remote,
                self@.awaiting_ack == old(self)@.awaiting_ack.remove(pid),
                self@.pending == old(self)@.pending,
                self@.ready == old(self)@.ready,
            decreases ids@.len() - j,
        {
            let ghost slots0 = self@.send_slots;
            let ghost suffix = ids@.skip(j as int);
            let id = ids[j];
            let idx = (id as usize) % BUFFER_SIZE;
            proof {
                assert(suffix[0] == id);
                assert(suffix.drop_first() =~= ids@.skip(j + 1));
                assert(slots0[idx as int] == match self.send_queue@[idx as int] {
                    Some(m) => Some((m.id, m.data@)),
                    None => None::<(u16, Seq<u8>)>,
                });
            }
            let mut clear_slot: bool = false;
            match &self.send_queue[idx] {
                Some(msg) => {
                    if msg.id == id {
                        clear_slot = true;
                    }
                },
                None => {},
            }
            if clear_slot {
                if is_recent(id, self.recent_acked) {
                    self.recent_acked = id;
                }
                self.send_queue[idx] = None;
                proof {
                    assert(self@.send_slots =~= slots0.update(idx as int, None));
                }
            }
            j = j + 1;
        }

        proof {
            assert(ids@.skip(ids@.len() as int) =~= Seq::<u16>::empty());
            assert(old(self)@.awaiting_ack.contains_key(pid));
            assert(old(self)@.awaiting_ack[pid] == ids@);
            assert(self@ =~= spec_acknowledge(old(self)@, pid));
        }
    }
}

/// The first index in `pending` holding `id`, or -1 when absent.
pub open spec fn spec_find_pending(pending: Seq<(u16, Seq<u8>)>, id: u16) -> int
    decreases pending.len(),
{
    if pending.len() == 0 {
        -1
    } else if pending[0].0 == id {
        0
    } else {
        let r = spec_find_pending(pending.drop_first(), id);
        if r == -1 {
            -1
        } else {
            r + 1
        }
    }
}

proof fn lemma_find_pending_char(pending: Seq<(u16, Seq<u8>)>, id: u16)
    ensures
        ({
            let r = spec_find_pending(pending, id);
            &&& (r == -1 ==> forall|j: int|
                0 <= j < pending.len() ==> (#[trigger] pending[j]).0 != id)
            &&& (r != -1 ==> 0 <= r < pending.len() && pending[r].0 == id && (forall|j: int|
                0 <= j < r ==> (#[trigger] pending[j]).0 != id))
        }),
    decreases pending.len(),
{
    if pending.len() > 0 && pending[0].0 != id {
        let rest = pending.drop_first();
        lemma_find_pending_char(rest, id);
        let r = spec_find_pending(pending, id);
        let rr = spec_find_pending(rest, id);
        if rr == -1 {
            assert forall|j: int| 0 <= j < pending.len() implies (#[trigger] pending[j]).0
                != id by {
                if j > 0 {
                    assert(rest[j - 1] == pending[j]);
                }
            }
        } else {
            assert(r == rr + 1);
            assert(pending[r] == rest[rr]);
            assert forall|j: int| 0 <= j < r implies (#[trigger] pending[j]).0 != id by {
                if j > 0 {
                    assert(rest[j - 1] == pending[j]);
                }
            }
        }
    }
}

/// Draining the reorder buffer: as long as the message with the next owed
/// id is pending, it moves to the ready list and the owed id advances.
pub open spec fn spec_drain(
    pending: Seq<(u16, Seq<u8>)>,
    expected: u16,
    ready: Seq<Seq<u8>>,
) -> (Seq<(u16, Seq<u8>)>, u16, Seq<Seq<u8>>)
    decreases pending.len(),
{
    let j = spec_find_pending(pending, expected);
    if 0 <= j < pending.len() {
        spec_drain(
            pending.remove(j),
            u16_specs::wrapping_add(expected, 1),
            ready.push(pending[j].1),
        )
    } else {
        (pending, expected, ready)
    }
}

/// What one inbound record does: the owed id is delivered at once and the
/// reorder buffer drained after it; an id at or behind the delivery
/// watermark is a duplicate and is dropped, as is one already pending; any
/// other id ahead of the watermark joins the reorder buffer.
pub open spec fn spec_receive_record(q: QueueModel, id: u16, payload: Seq<u8>) -> QueueModel {
    if id == q.sequence_remote {
        let d = spec_drain(
            q.pending,
            u16_specs::wrapping_add(q.sequence_remote, 1),
            q.ready.push(payload),
        );
        QueueModel { pending: d.0, sequence_remote: d.1, ready: d.2, ..q }
    } else if !spec_is_recent(id, q.sequence_remote) {
        q
    } else if spec_find_pending(q.pending, id) != -1 {
        q
    } else {
        QueueModel { pending: q.pending.push((id, payload)), ..q }
    }
}

pub open spec fn spec_receive_records(q: QueueModel, records: Seq<(u16, Seq<u8>)>) -> QueueModel
    decreases records.len(),
{
    if records.len() == 0 {
        q
    } else {
        spec_receive_records(
            spec_receive_record(q, records[0].0, records[0].1),
            records.drop_first(),
        )
    }
}

/// What feeding one packet payload to the queue does: the records laid head
/// to tail in `bytes` are taken in order, a truncated trailing record and
/// everything after it dropped.
pub open spec fn spec_recv_messages(q: QueueModel, bytes: Seq<u8>) -> QueueModel {
    spec_receive_records(q, spec_parse_records_lossy(bytes))
}

impl MessageQueue {
    /// The size fields of stored messages agree with their payload lengths.
    pub open spec fn size_ok(&self) -> bool {
        &&& forall|i: int|
            0 <= i < self.send_queue@.len() ==> ((#[trigger] self.send_queue@[i]) matches Some(m)
                ==> m.size == m.data@.len())
        &&& forall|j: int|
            0 <= j < self.recv_queue@.len() ==> (#[trigger] self.recv_queue@[j]).size
                == self.recv_queue@[j].data@.len()
    }

    /// Weakened pending bound that holds while the reorder buffer is being
    /// drained: entries may sit at the owed id itself, not only ahead of it.
    pub open spec fn pending_soft(&self) -> bool {
        &&& forall|j: int|
            0 <= j < self@.pending.len() ==> u16_specs::wrapping_sub(
                (#[trigger] self@.pending[j]).0,
                self.sequence_remote,
            ) <= 32767 && self@.pending[j].1.len() <= u16::MAX
        &&& forall|j1: int, j2: int|
            0 <= j1 < j2 < self@.pending.len() ==> (#[trigger] self@.pending[j1]).0 != (
            #[trigger] self@.pending[j2]).0
        &&& self@.send_slots.len() == BUFFER_SIZE
        &&& forall|i: int|
            0 <= i < BUFFER_SIZE ==> ((#[trigger] self@.send_slots[i]) matches Some(m) ==> (
            m.0 as int % (BUFFER_SIZE as int) == i && m.1.len() <= u16::MAX))
    }

    fn pending_contains(&self, id: u16) -> (r: bool)
        ensures
            r == (spec_find_pending(self@.pending, id) != -1),
    {
        proof {
            lemma_find_pending_char(self@.pending, id);
        }
        let mut j: usize = 0;
        while j < self.recv_queue.len()
            invariant
                j <= self.recv_queue@.len(),
                forall|t: int| 0 <= t < j ==> (#[trigger] self@.pending[t]).0 != id,
            decreases self.recv_queue@.len() - j,
        {
            proof {
                assert(self@.pending[j as int] == (
                    self.recv_queue@[j as int].id,
                    self.recv_queue@[j as int].data@,
                ));
            }
            if self.recv_queue[j].id == id {
                proof {
                    lemma_find_pending_char(self@.pending, id);
                    if spec_find_pending(self@.pending, id) == -1 {
                        assert(self@.pending[j as int].0 != id);
                    }
                }
                return true;
            }
            j = j + 1;
        }
        false
    }

    fn drain_pending(&mut self)
        requires
            old(self).size_ok(),
            old(self).pending_soft(),
        ensures
            final(self).inv(),
            (final(self)@.pending, final(self)@.sequence_remote, final(self)@.ready)
                == spec_drain(
                old(self)@.pending,
                old(self).sequence_remote,
                old(self)@.ready,
            ),
            final(self).sequence_local == old(self).sequence_local,
            final(self).recent_acked == old(self).recent_acked,
            final(self)@.awaiting_ack == old(self)@.awaiting_ack,
            final(self)@.send_slots == old(self)@.send_slots,
    {
        let ghost target = spec_drain(
            old(self)@.pending,
            old(self).sequence_remote,
            old(self)@.ready,
        );
        loop
            invariant
                self.size_ok(),
                self.pending_soft(),
                target == spec_drain(
                    old(self)@.pending,
                    old(self).sequence_remote,
                    old(self)@.ready,
                ),
                target == spec_drain(self@.pending, self.sequence_remote, self@.ready),
                self.sequence_local == old(self).sequence_local,
                self.recent_acked == old(self).recent_acked,
                self@.awaiting_ack == old(self)@.awaiting_ack,
                self@.send_slots == old(self)@.send_slots,
            decreases self.recv_queue@.len(),
        {
            let ghost pending0 = self@.pending;
            let ghost ready0 = self@.ready;
            let ghost expected0 = self.sequence_remote;
            proof {
                lemma_find_pending_char(pending0, expected0);
            }
            let mut j: usize = 0;
            while j < self.recv_queue.len() && self.recv_queue[j].id != self.sequence_remote
                invariant
                    j <= self.recv_queue@.len(),
                    forall|t: int| 0 <= t < j ==> (#[trigger] self@.pending[t]).0
                        != self.sequence_remote,
                decreases self.recv_queue@.len() - j,
            {
                proof {
                    assert(self@.pending[j as int] == (
                        self.recv_queue@[j as int].id,
                        self.recv_queue@[j as int].data@,
                    ));
                }
                j = j + 1;
            }
            if j == self.recv_queue.len() {
                proof {
                    assert(spec_find_pending(pending0, expected0) == -1) by {
                        if spec_find_pending(pending0, expected0) != -1 {
                            let r = spec_find_pending(pending0, expected0);
                            assert(pending0[r].0 == expected0);
                        }
                    }
                    assert(spec_drain(pending0, expected0, ready0) == (
                        pending0,
                        expected0,
                        ready0,
                    ));
                    // a pending entry level with the owed id would have been
                    // found, so every entry now sits strictly ahead
                    assert forall|t: int| 0 <= t < self@.pending.len() implies spec_is_recent(
                        (#[trigger] self@.pending[t]).0,
                        self.sequence_remote,
                    ) by {
                        assert(self@.pending[t].0 != self.sequence_remote);
                        assert(u16_specs::wrapping_sub(self@.pending[t].0, self.sequence_remote)
                            <= 32767);
                    }
                }
                return ;
            }
            proof {
                let r = spec_find_pending(pending0, expected0);
                assert(pending0[j as int] == (
                    self.recv_queue@[j as int].id,
                    self.recv_queue@[j as int].data@,
                ));
                assert(pending0[j as int].0 == expected0);
                assert(r != -1) by {
                    if r == -1 {
                        assert(pending0[j as int].0 != expected0);
                    }
                }
                assert(r == j) by {
                    if r < j {
                        assert(pending0[r].0 != expected0);
                    }
                    if r > j {
                        assert(pending0[j as int].0 != expected0);
                    }
                }
            }
            let msg = self.recv_queue.remove(j);
            self.recv.push(msg.data);
            self.sequence_remote = self.sequence_remote.wrapping_add(1);
            proof {
                assert(self@.pending =~= pending0.remove(j as int));
                assert(self@.ready =~= ready0.push(pending0[j as int].1));
                assert(target == spec_drain(self@.pending, self.sequence_remote, self@.ready));
                assert forall|t: int| 0 <= t < self@.pending.len() implies u16_specs::wrapping_sub(
                    (#[trigger] self@.pending[t]).0,
                    self.sequence_remote,
                ) <= 32767 && self@.pending[t].1.len() <= u16::MAX by {
                    let x = self@.pending[t].0;
                    let was = if t < j { t } else { t + 1 };
                    assert(self@.pending[t] == pending0[was]);
                    assert(pending0[was].0 != expected0);
                    assert(u16_specs::wrapping_sub(x, expected0) >= 1);
                }
            }
        }
    }

    fn receive_record(&mut self, id: u16, data: Vec<u8>)
        requires
            old(self).inv(),
            data@.len() <= u16::MAX,
        ensures
            final(self).inv(),
            final(self)@ == spec_receive_record(old(self)@, id, data@),
    {
        if id == self.sequence_remote {
            let ghost data_bytes = data@;
            self.recv.push(data);
            self.sequence_remote = self.sequence_remote.wrapping_add(1);
            proof {
                assert(self@.ready =~= old(self)@.ready.push(data_bytes));
                assert forall|t: int| 0 <= t < self@.pending.len() implies u16_specs::wrapping_sub(
                    (#[trigger] self@.pending[t]).0,
                    self.sequence_remote,
                ) <= 32767 by {
                    assert(spec_is_recent(self@.pending[t].0, old(self).sequence_remote));
                }
            }
            self.drain_pending();
            proof {
                assert(self@ =~= spec_receive_record(old(self)@, id, data_bytes));
            }
        } else if !is_recent(id, self.sequence_remote) {
            // at or behind the delivery watermark: a duplicate of a message
            // already delivered, dropped rather than re-queued
        } else if self.pending_contains(id) {
            // a copy of this id is already waiting in the reorder buffer
        } else {
            let ghost data_bytes = data@;
            let size = data.len() as u16;
            self.recv_queue.push(Message { id, size, data });
            proof {
                assert(self@.pending =~= old(self)@.pending.push((id, data_bytes)));
                lemma_find_pending_char(old(self)@.pending, id);
                assert(self@ =~= spec_receive_record(old(self)@, id, data_bytes));
            }
        }
    }

    pub fn recv_messages(&mut self, slice: &[u8])
        requires
            old(self).inv(),
        ensures
            final(self).inv(),
            final(self)@ == spec_recv_messages(old(self)@, slice@),
    {
        let len = slice.len();
        let mut index: usize = 0;
        proof {
            assert(slice@.skip(0) =~= slice@);
        }
        while index < len && len - index >= 4
            invariant
                self.inv(),
                len == slice@.len(),
                index <= len,
                spec_receive_records(old(self)@, spec_parse_records_lossy(slice@))
                    == spec_receive_records(
                    self@,
                    spec_parse_records_lossy(slice@.skip(index as int)),
                ),
            decreases len - index,
        {
            let ghost s = slice@.skip(index as int);
            let ghost q0 = self@;

            let id = ((slice[index] as u16) << 8) | (slice[index + 1] as u16);
            let size = ((slice[index + 2] as u16) << 8) | (slice[index + 3] as u16);
            proof {
                assert(s[0] == slice@[index as int]);
                assert(s[1] == slice@[index + 1]);
                assert(s[2] == slice@[index + 2]);
                assert(s[3] == slice@[index + 3]);
            }

            if (size as usize) > len - index - 4 {
                proof {
                    assert(spec_parse_records_lossy(s).len() == 0);
                    assert(spec_parse_records_lossy(slice@.skip(len as int)).len() == 0);
                    assert(spec_receive_records(q0, spec_parse_records_lossy(s)) == q0);
                    assert(spec_receive_records(
                        q0,
                        spec_parse_records_lossy(slice@.skip(len as int)),
                    ) == q0);
                }
                index = len;
            } else {
                let new_index = index + 4 + size as usize;
                let payload = vstd::slice::slice_to_vec(&slice[index + 4..new_index]);
                proof {
                    assert(payload@ =~= s.subrange(4, 4 + size as int));
                    assert(s.skip(4 + size as int) =~= slice@.skip(new_index as int));
                }
                let ghost rest = spec_parse_records_lossy(slice@.skip(new_index as int));
                proof {
                    assert(spec_parse_records_lossy(s) == seq![(id, payload@)] + rest);
                    assert((seq![(id, payload@)] + rest)[0] == (id, payload@));
                    assert((seq![(id, payload@)] + rest).drop_first() =~= rest);
                }
                self.receive_record(id, payload);
                index = new_index;
            }
        }
        proof {
            assert(spec_parse_records_lossy(slice@.skip(index as int)).len() == 0);
            assert(spec_receive_records(
                self@,
                spec_parse_records_lossy(slice@.skip(index as int)),
            ) == self@);
        }
    }

    pub fn recv_next_all(&mut self) -> (r: Vec<Vec<u8>>)
        requires
            old(self).inv(),
        ensures
            final(self).inv(),
            r@.map_values(|v: Vec<u8>| v@) == old(self)@.ready,
            final(self)@ == (QueueModel { ready: Seq::empty(), ..old(self)@ }),
    {
        let mut r: Vec<Vec<u8>> = Vec::new();
        core::mem::swap(&mut r, &mut self.recv);
        proof {
            assert(self@.ready =~= Seq::<Seq<u8>>::empty());
            assert(self@ =~= (QueueModel { ready: Seq::empty(), ..old(self)@ }));
        }
        r
    }
}

/// The bytes that the ids `cur, cur+1, ..., cur+n-1` would contribute to a
/// scan: the sizes of the messages still present in their slots.
pub open spec fn spec_scan_bytes(slots: Seq<Option<(u16, Seq<u8>)>>, cur: u16, n: nat) -> int
    decreases n,
{
    if n == 0 {
        0
    } else {
        let head: int = match slots[cur as int % (BUFFER_SIZE as int)] {
            Some(m) => if m.0 == cur {
                m.1.len() as int
            } else {
                0
            },
            None => 0,
        };
        head + spec_scan_bytes(slots, u16_specs::wrapping_add(cur, 1), (n - 1) as nat)
    }
}

proof fn lemma_scan_bytes_nonneg(slots: Seq<Option<(u16, Seq<u8>)>>, cur: u16, n: nat)
    ensures
        spec_scan_bytes(slots, cur, n) >= 0,
    decreases n,
{
    if n > 0 {
        lemma_scan_bytes_nonneg(slots, u16_specs::wrapping_add(cur, 1), (n - 1) as nat);
    }
}

proof fn lemma_scan_includes(
    slots: Seq<Option<(u16, Seq<u8>)>>,
    cur: u16,
    n: nat,
    amt: u16,
    written: int,
    k: nat,
)
    requires
        slots.len() == BUFFER_SIZE,
        k < n,
        ({
            let m = u16_specs::wrapping_add(cur, k as u16);
            slots[m as int % (BUFFER_SIZE as int)] matches Some(entry) && entry.0 == m
        }),
        written + spec_scan_bytes(slots, cur, n) < amt,
        0 <= written,
        n <= 0x1_0000,
    ensures
        spec_send_scan(slots, cur, n, amt, written).0.contains(
            u16_specs::wrapping_add(cur, k as u16),
        ),
    decreases n,
{
    let m = u16_specs::wrapping_add(cur, k as u16);
    let next = u16_specs::wrapping_add(cur, 1);
    let scan = spec_send_scan(slots, cur, n, amt, written);
    if k == 0 {
        let entry = slots[cur as int % (BUFFER_SIZE as int)].unwrap();
        let w2 = written + entry.1.len();
        lemma_scan_bytes_nonneg(slots, next, (n - 1) as nat);
        assert(spec_scan_bytes(slots, cur, n) >= entry.1.len());
        assert(w2 < amt);
        let rest = spec_send_scan(slots, next, (n - 1) as nat, amt, w2);
        assert(scan.0 == seq![cur] + rest.0);
        assert(scan.0[0] == cur);
    } else {
        assert(m == u16_specs::wrapping_add(next, (k - 1) as u16));
        match slots[cur as int % (BUFFER_SIZE as int)] {
            Some(entry) => {
                if entry.0 == cur {
                    let w2 = written + entry.1.len();
                    lemma_scan_includes(slots, next, (n - 1) as nat, amt, w2, (k - 1) as nat);
                    let rest = spec_send_scan(slots, next, (n - 1) as nat, amt, w2);
                    let j = choose|j: int| 0 <= j < rest.0.len() && rest.0[j] == m;
                    if w2 < amt {
                        assert(scan.0 == seq![cur] + rest.0);
                        assert(scan.0[j + 1] == m);
                    } else {
                        assert(scan.0 == rest.0);
                    }
                } else {
                    lemma_scan_includes(slots, next, (n - 1) as nat, amt, written, (k - 1) as nat);
                }
            },
            None => {
                lemma_scan_includes(slots, next, (n - 1) as nat, amt, written, (k - 1) as nat);
            },
        }
    }
}

/// Retransmission-until-acked law, inclusion half: a message still in its
/// send-buffer slot, with its id inside the scan window and the window's
/// bytes inside the budget, is included in the payload of every `send_next`
/// call, and sending does not retire it — its slot is untouched. It leaves
/// the buffer only through `spec_acknowledge` on a packet that carried it,
/// or when the watermark passes it after a later message's ack.
pub proof fn lemma_retransmitted_until_acked(q: QueueModel, sequence: u16, amt: u16, m: u16)
    requires
        q.wf(),
        q.send_slots[m as int % (BUFFER_SIZE as int)] matches Some(entry) && entry.0 == m,
        wrap_distance(q.recent_acked, m) < wrap_distance(q.recent_acked, q.sequence_local),
        spec_scan_bytes(
            q.send_slots,
            q.recent_acked,
            wrap_distance(q.recent_acked, q.sequence_local),
        ) < amt,
    ensures
        ({
            let r = spec_send_next(q, sequence, amt);
            &&& r.0.awaiting_ack.contains_key(sequence)
            &&& r.0.awaiting_ack[sequence].contains(m)
            &&& r.0.send_slots == q.send_slots
        }),
{
    let n = wrap_distance(q.recent_acked, q.sequence_local);
    let k = wrap_distance(q.recent_acked, m);
    assert(m == u16_specs::wrapping_add(q.recent_acked, k as u16));
    lemma_scan_includes(q.send_slots, q.recent_acked, n, amt, 0, k);
}

proof fn lemma_ack_list_keeps_none(
    slots: Seq<Option<(u16, Seq<u8>)>>,
    watermark: u16,
    ids: Seq<u16>,
    i: int,
)
    requires
        slots.len() == BUFFER_SIZE,
        0 <= i < slots.len(),
        slots[i] is None,
    ensures
        spec_ack_list(slots, watermark, ids).0[i] is None,
    decreases ids.len(),
{
    if ids.len() > 0 {
        let id = ids[0];
        let rest = ids.drop_first();
        match slots[id as int % (BUFFER_SIZE as int)] {
            Some(entry) => {
                if entry.0 == id {
                    let w2 = if spec_is_recent(id, watermark) {
                        id
                    } else {
                        watermark
                    };
                    lemma_ack_list_keeps_none(
                        slots.update(id as int % (BUFFER_SIZE as int), None),
                        w2,
                        rest,
                        i,
                    );
                } else {
                    lemma_ack_list_keeps_none(slots, watermark, rest, i);
                }
            },
            None => {
                lemma_ack_list_keeps_none(slots, watermark, rest, i);
            },
        }
    }
}

proof fn lemma_ack_list_clears(
    slots: Seq<Option<(u16, Seq<u8>)>>,
    watermark: u16,
    ids: Seq<u16>,
    m: u16,
)
    requires
        slots.len() == BUFFER_SIZE,
        ids.contains(m),
        slots[m as int % (BUFFER_SIZE as int)] matches Some(entry) && entry.0 == m,
    ensures
        spec_ack_list(slots, watermark, ids).0[m as int % (BUFFER_SIZE as int)] is None,
    decreases ids.len(),
{
    let idx = m as int % (BUFFER_SIZE as int);
    let id = ids[0];
    let rest = ids.drop_first();
    if id == m {
        let w2 = if spec_is_recent(id, watermark) {
            id
        } else {
            watermark
        };
        lemma_ack_list_keeps_none(slots.update(idx, None), w2, rest, idx);
    } else {
        assert(rest.contains(m)) by {
            let j = choose|j: int| 0 <= j < ids.len() && ids[j] == m;
            assert(rest[j - 1] == m);
        }
        match slots[id as int % (BUFFER_SIZE as int)] {
            Some(entry) => {
                if entry.0 == id {
                    let w2 = if spec_is_recent(id, watermark) {
                        id
                    } else {
                        watermark
                    };
                    lemma_ack_list_clears(
                        slots.update(id as int % (BUFFER_SIZE as int), None),
                        w2,
                        rest,
                        m,
                    );
                } else {
                    lemma_ack_list_clears(slots, watermark, rest, m);
                }
            },
            None => {
                lemma_ack_list_clears(slots, watermark, rest, m);
            },
        }
    }
}

/// Retransmission-until-acked law, retirement half: once the packet whose
/// record carries a message id is acknowledged, that message's slot is
/// empty, so no later scan can include it again.
pub proof fn lemma_acknowledge_retires(q: QueueModel, sequence: u16, m: u16)
    requires
        q.wf(),
        q.awaiting_ack.contains_key(sequence),
        q.awaiting_ack[sequence].contains(m),
        q.send_slots[m as int % (BUFFER_SIZE as int)] matches Some(entry) && entry.0 == m,
    ensures
        spec_acknowledge(q, sequence).send_slots[m as int % (BUFFER_SIZE as int)] is None,
{
    lemma_ack_list_clears(q.send_slots, q.recent_acked, q.awaiting_ack[sequence], m);
}

} // verus!
