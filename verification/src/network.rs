//! The simulated network link: a delayed-but-reliable message queue.
//!
//! A message enqueued at time `T` with one-way latency `L` becomes visible to
//! the receiver only from simulated time `T + L` on.  Among all messages that
//! are already due, delivery strictly follows insertion order, so a single
//! sender's stream is received exactly in send order.

use vstd::prelude::*;

use crate::world::Message;
use crate::world::MessageModel;

verus! {

/// A queued payload together with the simulated time at which it may first
/// be handed to the receiver.
#[derive(Clone, Debug)]
pub struct NetworkMessage {
    pub receive_time: u64,
    pub payload: Message,
}

/// Mathematical value of a [`NetworkMessage`].
#[verifier::ext_equal]
pub ghost struct NetworkMessageModel {
    pub receive_time: u64,
    pub payload: MessageModel,
}

impl View for NetworkMessage {
    type V = NetworkMessageModel;

    open spec fn view(&self) -> NetworkMessageModel {
        NetworkMessageModel { receive_time: self.receive_time, payload: self.payload@ }
    }
}

/// Restricts an unbounded integer to the `u64` range by saturation.
pub open spec fn clip_to_u64(x: int) -> int {
    if x > u64::MAX as int {
        u64::MAX as int
    } else if x < 0 {
        0
    } else {
        x
    }
}

/// Whether a queued message may be delivered at simulated time `now`.
pub open spec fn is_due(m: NetworkMessageModel, now: u64) -> bool {
    m.receive_time <= now
}

/// Whether the queue holds at least one message deliverable at `now`.
pub open spec fn has_due(q: Seq<NetworkMessageModel>, now: u64) -> bool {
    exists|i: int| 0 <= i < q.len() && is_due(q[i], now)
}

/// Index of the first (oldest-enqueued) due message; `q.len()` when none is
/// due.
pub open spec fn first_due_index(q: Seq<NetworkMessageModel>, now: u64) -> int
    decreases q.len(),
{
    if q.len() <= 0 {
        0
    } else if is_due(q[0], now) {
        0
    } else {
        1 + first_due_index(q.skip(1), now)
    }
}

/// The payloads deliverable at `now`, in insertion order.
pub open spec fn due_payloads(q: Seq<NetworkMessageModel>, now: u64) -> Seq<MessageModel>
    decreases q.len(),
{
    if q.len() <= 0 {
        Seq::empty()
    } else if is_due(q[0], now) {
        seq![q[0].payload] + due_payloads(q.skip(1), now)
    } else {
        due_payloads(q.skip(1), now)
    }
}

/// The messages not yet due at `now`, in insertion order: what a full drain
/// leaves queued.
pub open spec fn held_back(q: Seq<NetworkMessageModel>, now: u64) -> Seq<NetworkMessageModel>
    decreases q.len(),
{
    if q.len() <= 0 {
        Seq::empty()
    } else if is_due(q[0], now) {
        held_back(q.skip(1), now)
    } else {
        seq![q[0]] + held_back(q.skip(1), now)
    }
}

/// With no due message, a drain delivers nothing and disturbs nothing.
pub proof fn lemma_no_due(q: Seq<NetworkMessageModel>, now: u64)
    requires
        !has_due(q, now),
    ensures
        due_payloads(q, now) == Seq::<MessageModel>::empty(),
        held_back(q, now) == q,
    decreases q.len(),
{
    if q.len() > 0 {
        assert(!is_due(q[0], now));
        assert(forall|i: int| 0 <= i < q.skip(1).len() ==> q.skip(1)[i] == q[i + 1]);
        lemma_no_due(q.skip(1), now);
        assert(held_back(q, now) =~= q) by {
            assert(seq![q[0]] + q.skip(1) =~= q);
        }
    }
}

/// The first due message really is due, and nothing before it is.
pub proof fn lemma_first_due(q: Seq<NetworkMessageModel>, now: u64)
    requires
        has_due(q, now),
    ensures
        0 <= first_due_index(q, now) < q.len(),
        is_due(q[first_due_index(q, now)], now),
        forall|i: int| 0 <= i < first_due_index(q, now) ==> !is_due(q[i], now),
    decreases q.len(),
{
    if !is_due(q[0], now) {
        let w: int = choose|i: int| 0 <= i < q.len() && is_due(q[i], now);
        assert(q.skip(1)[w - 1] == q[w]);
        lemma_first_due(q.skip(1), now);
        assert(forall|i: int| 1 <= i < first_due_index(q, now) ==> q[i] == q.skip(1)[i - 1]);
    }
}

/// Concatenating queues concatenates their due payloads and their held-back
/// remainders.
pub proof fn lemma_due_split(a: Seq<NetworkMessageModel>, b: Seq<NetworkMessageModel>, now: u64)
    ensures
        due_payloads(a + b, now) == due_payloads(a, now) + due_payloads(b, now),
        held_back(a + b, now) == held_back(a, now) + held_back(b, now),
    decreases a.len(),
{
    if a.len() == 0 {
        assert(a + b =~= b);
        assert(due_payloads(a, now) + due_payloads(b, now) =~= due_payloads(b, now));
        assert(held_back(a, now) + held_back(b, now) =~= held_back(b, now));
    } else {
        assert((a + b).skip(1) =~= a.skip(1) + b);
        assert((a + b)[0] == a[0]);
        lemma_due_split(a.skip(1), b, now);
        if is_due(a[0], now) {
            assert(due_payloads(a + b, now) =~= due_payloads(a, now) + due_payloads(b, now));
            assert(held_back(a + b, now) =~= held_back(a, now) + held_back(b, now));
        } else {
            assert(held_back(a + b, now) =~= held_back(a, now) + held_back(b, now));
        }
    }
}

/// Removing the first due message removes exactly the head of the due
/// payloads and leaves the held-back remainder untouched.
pub proof fn lemma_remove_first_due(q: Seq<NetworkMessageModel>, now: u64)
    requires
        has_due(q, now),
    ensures
        ({
            let j = first_due_index(q, now);
            &&& due_payloads(q, now) == seq![q[j].payload] + due_payloads(q.remove(j), now)
            &&& held_back(q, now) == held_back(q.remove(j), now)
        }),
{
    let j = first_due_index(q, now);
    lemma_first_due(q, now);
    let front = q.take(j);
    let back = q.skip(j + 1);
    let mid = seq![q[j]];
    assert(q =~= front + (mid + back));
    assert(q.remove(j) =~= front + back);
    assert(!has_due(front, now)) by {
        assert(forall|i: int| 0 <= i < front.len() ==> front[i] == q[i]);
    }
    lemma_no_due(front, now);
    lemma_due_split(front, mid + back, now);
    lemma_due_split(mid, back, now);
    lemma_due_split(front, back, now);
    assert(mid.skip(1) =~= Seq::<NetworkMessageModel>::empty());
    assert(mid[0] == q[j]);
    assert(is_due(mid[0], now));
    assert(due_payloads(mid.skip(1), now) =~= Seq::<MessageModel>::empty());
    assert(due_payloads(mid, now) =~= seq![mid[0].payload] + due_payloads(mid.skip(1), now));
    assert(due_payloads(mid, now) =~= seq![q[j].payload]);
    assert(held_back(mid, now) =~= held_back(mid.skip(1), now));
    assert(held_back(mid, now) =~= Seq::<NetworkMessageModel>::empty());
    assert(due_payloads(q, now) =~= seq![q[j].payload] + due_payloads(q.remove(j), now));
    assert(held_back(q, now) =~= held_back(q.remove(j), now));
}

/// Delivery rank of the message queued at index `i`: how many due payloads
/// precede it in a full drain.
pub open spec fn due_count_before(q: Seq<NetworkMessageModel>, now: u64, i: int) -> int {
    due_payloads(q.take(i), now).len() as int
}

/// A due message at queue index `i` is delivered, at its delivery rank.
pub proof fn lemma_due_position(q: Seq<NetworkMessageModel>, now: u64, i: int)
    requires
        0 <= i < q.len(),
        is_due(q[i], now),
    ensures
        0 <= due_count_before(q, now, i) < due_payloads(q, now).len(),
        due_payloads(q, now)[due_count_before(q, now, i)] == q[i].payload,
{
    assert(q =~= q.take(i) + q.skip(i));
    lemma_due_split(q.take(i), q.skip(i), now);
    assert(q.skip(i)[0] == q[i]);
    assert(due_payloads(q.skip(i), now) == seq![q[i].payload] + due_payloads(
        q.skip(i).skip(1),
        now,
    ));
    assert(due_payloads(q, now)[due_count_before(q, now, i)] == due_payloads(q.skip(i), now)[0]);
}

/// Delivery ranks grow with queue position: a due message is delivered
/// before everything enqueued after it.
pub proof fn lemma_due_count_monotone(q: Seq<NetworkMessageModel>, now: u64, i: int, j: int)
    requires
        0 <= i < j <= q.len(),
        is_due(q[i], now),
    ensures
        due_count_before(q, now, i) < due_count_before(q, now, j),
{
    assert(q.take(j) =~= q.take(i) + q.subrange(i, j));
    lemma_due_split(q.take(i), q.subrange(i, j), now);
    assert(q.subrange(i, j)[0] == q[i]);
    assert(due_payloads(q.subrange(i, j), now) == seq![q[i].payload] + due_payloads(
        q.subrange(i, j).skip(1),
        now,
    ));
}

/// Ordering law of the link: for two messages A and B on the same queue with
/// A enqueued before B, if both are due, a full drain delivers A strictly
/// before B.  Since `drain` hands out `due_payloads` in order, delivery order
/// among due messages always matches send order.
pub proof fn lemma_fifo_among_due(q: Seq<NetworkMessageModel>, now: u64, i: int, j: int)
    requires
        0 <= i < j < q.len(),
        is_due(q[i], now),
        is_due(q[j], now),
    ensures
        ({
            let a = due_count_before(q, now, i);
            let b = due_count_before(q, now, j);
            &&& 0 <= a < b < due_payloads(q, now).len()
            &&& due_payloads(q, now)[a] == q[i].payload
            &&& due_payloads(q, now)[b] == q[j].payload
        }),
{
    lemma_due_position(q, now, i);
    lemma_due_position(q, now, j);
    lemma_due_count_monotone(q, now, i, j);
}

/// Everything a drain delivers comes from a message that was really due:
/// the link never hands out a payload ahead of its release time.
pub proof fn lemma_delivered_only_when_due(q: Seq<NetworkMessageModel>, now: u64, k: int)
    requires
        0 <= k < due_payloads(q, now).len(),
    ensures
        exists|i: int|
            0 <= i < q.len() && is_due(#[trigger] q[i], now) && q[i].payload == due_payloads(
                q,
                now,
            )[k],
    decreases q.len(),
{
    if q.len() > 0 {
        if is_due(q[0], now) {
            if k == 0 {
                assert(is_due(q[0], now) && q[0].payload == due_payloads(q, now)[k]);
            } else {
                lemma_delivered_only_when_due(q.skip(1), now, k - 1);
                let w: int = choose|i: int|
                    0 <= i < q.skip(1).len() && is_due(#[trigger] q.skip(1)[i], now) && q.skip(
                        1,
                    )[i].payload == due_payloads(q.skip(1), now)[k - 1];
                assert(q[w + 1] == q.skip(1)[w]);
            }
        } else {
            lemma_delivered_only_when_due(q.skip(1), now, k);
            let w: int = choose|i: int|
                0 <= i < q.skip(1).len() && is_due(#[trigger] q.skip(1)[i], now) && q.skip(
                    1,
                )[i].payload == due_payloads(q.skip(1), now)[k];
            assert(q[w + 1] == q.skip(1)[w]);
        }
    }
}

/// Delay law of the link: a message sent at time `T` with latency `L` is not
/// due — so neither `receive` nor `drain` can return it — at any time before
/// `T + L`, and from `T + L` on it is the (sole) due message of its queue and
/// is returned by the first `receive`.
pub proof fn lemma_delay_gates_delivery(send_time: u64, lag_ms: u64, payload: MessageModel, now: u64)
    requires
        send_time + lag_ms <= u64::MAX,
    ensures
        ({
            let q = seq![
                NetworkMessageModel {
                    receive_time: clip_to_u64(send_time + lag_ms) as u64,
                    payload,
                },
            ];
            &&& now < send_time + lag_ms ==> !has_due(q, now) && due_payloads(q, now)
                == Seq::<MessageModel>::empty() && held_back(q, now) == q
            &&& now >= send_time + lag_ms ==> has_due(q, now) && first_due_index(q, now) == 0
                && due_payloads(q, now) == seq![payload]
        }),
{
    let q = seq![
        NetworkMessageModel { receive_time: clip_to_u64(send_time + lag_ms) as u64, payload },
    ];
    if now < send_time + lag_ms {
        assert(!is_due(q[0], now));
        lemma_no_due(q, now);
    } else {
        assert(is_due(q[0], now));
        assert(q.skip(1) =~= Seq::<NetworkMessageModel>::empty());
        assert(due_payloads(q.skip(1), now) =~= Seq::<MessageModel>::empty());
        assert(due_payloads(q, now) =~= seq![q[0].payload] + due_payloads(q.skip(1), now));
        assert(due_payloads(q, now) =~= seq![payload]);
    }
}

/// The simulated link.  Messages pile up in insertion order; each is released
/// only once its `receive_time` has been reached.
#[derive(Debug)]
pub struct LagNetwork {
    pub messages: Vec<NetworkMessage>,
}

impl View for LagNetwork {
    type V = Seq<NetworkMessageModel>;

    open spec fn view(&self) -> Seq<NetworkMessageModel> {
        self.messages@.map_values(|m: NetworkMessage| m@)
    }
}

impl LagNetwork {
    /// An empty link.
    pub fn new() -> (c: LagNetwork)
        ensures
            c@ == Seq::<NetworkMessageModel>::empty(),
    {
        let c = LagNetwork { messages: Vec::new() };
        proof {
            assert(c@ =~= Seq::<NetworkMessageModel>::empty());
        }
        c
    }

    /// Number of queued messages, due or not.
    pub fn len(&self) -> (n: usize)
        ensures
            n == self@.len(),
    {
        self.messages.len()
    }

    /// Enqueues a payload, deliverable once `lag_ms` of simulated time has
    /// passed beyond `now_ms` (saturating at the end of representable time).
    pub fn send(&mut self, lag_ms: u64, message: Message, now_ms: u64)
        ensures
            final(self)@ == old(self)@.push(
                NetworkMessageModel {
                    receive_time: clip_to_u64(now_ms + lag_ms) as u64,
                    payload: message@,
                },
            ),
    {
        let receive_time: u64 = if lag_ms > u64::MAX - now_ms {
            u64::MAX
        } else {
            now_ms + lag_ms
        };
        let nm = NetworkMessage { receive_time, payload: message };
        let ghost nmm = nm@;
        self.messages.push(nm);
        proof {
            assert(self@ =~= old(self)@.push(nmm));
        }
    }

    /// Hands out at most one payload: the oldest-enqueued message already
    /// due at `now_ms`, removed from the queue, or `None` when nothing is
    /// due yet.
    pub fn receive(&mut self, now_ms: u64) -> (r: Option<Message>)
        ensures
            !has_due(old(self)@, now_ms) ==> r is None && final(self)@ == old(self)@,
            has_due(old(self)@, now_ms) ==> ({
                let j = first_due_index(old(self)@, now_ms);
                &&& r matches Some(m) && m@ == old(self)@[j].payload
                &&& final(self)@ == old(self)@.remove(j)
            }),
    {
        let n = self.messages.len();
        let mut i: usize = 0;
        while i < n
            invariant
                0 <= i <= n,
                n == self@.len(),
                *self == *old(self),
                forall|k: int| 0 <= k < i ==> !is_due(self@[k], now_ms),
            decreases n - i,
        {
            if self.messages[i].receive_time <= now_ms {
                proof {
                    assert(is_due(self@[i as int], now_ms));
                    lemma_first_due(self@, now_ms);
                    assert(first_due_index(self@, now_ms) == i) by {
                        let j = first_due_index(self@, now_ms);
                        if j < i {
                            assert(is_due(self@[j], now_ms));
                        }
                        if i < j {
                            assert(!is_due(self@[i as int], now_ms));
                        }
                    }
                }
                let removed = self.messages.remove(i);
                proof {
                    assert(self@ =~= old(self)@.remove(i as int));
                }
                return Some(removed.payload);
            }
            i += 1;
        }
        proof {
            assert(!has_due(self@, now_ms));
        }
        None
    }

    /// Drains every currently-due message, in insertion order, and returns
    /// their payloads; messages not yet due stay queued.
    pub fn drain(&mut self, now_ms: u64) -> (r: Vec<Message>)
        ensures
            r@.map_values(|m: Message| m@) == due_payloads(old(self)@, now_ms),
            final(self)@ == held_back(old(self)@, now_ms),
    {
        let ghost q0 = self@;
        let mut out: Vec<Message> = Vec::new();
        proof {
            assert(out@.map_values(|m: Message| m@) + due_payloads(self@, now_ms) =~= due_payloads(
                q0,
                now_ms,
            ));
        }
        loop
            invariant
                out@.map_values(|m: Message| m@) + due_payloads(self@, now_ms) == due_payloads(
                    q0,
                    now_ms,
                ),
                held_back(self@, now_ms) == held_back(q0, now_ms),
            ensures
                !has_due(self@, now_ms),
                out@.map_values(|m: Message| m@) + due_payloads(self@, now_ms) == due_payloads(
                    q0,
                    now_ms,
                ),
                held_back(self@, now_ms) == held_back(q0, now_ms),
            decreases self@.len(),
        {
            let ghost before = self@;
            match self.receive(now_ms) {
                Some(m) => {
                    proof {
                        assert(has_due(before, now_ms));
                        lemma_first_due(before, now_ms);
                        lemma_remove_first_due(before, now_ms);
                        assert(out@.push(m).map_values(|mm: Message| mm@) =~= out@.map_values(
                            |mm: Message| mm@,
                        ).push(m@));
                        assert(out@.map_values(|mm: Message| mm@).push(m@) + due_payloads(
                            self@,
                            now_ms,
                        ) =~= out@.map_values(|mm: Message| mm@) + due_payloads(before, now_ms));
                    }
                    out.push(m);
                },
                None => {
                    break ;
                },
            }
        }
        proof {
            lemma_no_due(self@, now_ms);
            assert(out@.map_values(|m: Message| m@) + Seq::<MessageModel>::empty() =~= out@
                .map_values(|m: Message| m@));
        }
        out
    }
}

} // verus!
