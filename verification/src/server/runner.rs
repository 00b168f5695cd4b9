//! The reliability core: a single-owner state machine over the sequence
//! space, the retry and online clocks, and the FIFO of outstanding waiters.
//!
//! Time is a millisecond count handed in by the caller; the machine requires
//! it never to run backwards and records the last value it saw in a ghost
//! clock. The watch channel's last published value is mirrored in
//! `online_value`; the mirror is exact provided the channel is created with
//! `false`, since every publish here is paired with the mirror's update.

use std::collections::VecDeque;

use vstd::prelude::*;

use crate::server::transport::Command;
use crate::server::{publish_online, reply_send, Error, MpcRequest, MpcResponse};
use crate::{ATTEMPT_WINDOW_MS, ONLINE_TTL_MS, RETRY_SPACING_MS};

verus! {

/// One outstanding submission: the sequence it waits for, the instant at
/// which it gives up, and the one-shot slot its verdict is delivered through.
pub struct ClientWaiter {
    pub seq: u32,
    pub deadline_ms: u64,
    pub slot: tokio::sync::oneshot::Sender<MpcResponse>,
}

/// Whether a waiter can be resolved now: its sequence has been acknowledged,
/// or its deadline has passed.
pub open spec fn decided(seq: u32, deadline_ms: u64, last_ack: u32, now: u64) -> bool {
    seq <= last_ack || deadline_ms <= now
}

/// The verdict a resolvable waiter receives: success if acknowledged,
/// otherwise the acknowledgement timed out.
pub open spec fn resolution(seq: u32, last_ack: u32) -> MpcResponse {
    if seq <= last_ack {
        MpcResponse::SendRcResponse(Ok(()))
    } else {
        MpcResponse::SendRcResponse(Err(Error::IRAckTimeout))
    }
}

/// Waiters stand in submission order: strictly increasing sequence numbers
/// and non-decreasing deadlines.
pub open spec fn waiters_ordered(ws: Seq<ClientWaiter>) -> bool {
    forall|i: int, j: int| #![trigger ws[i], ws[j]]
        0 <= i < j < ws.len() ==> ws[i].seq < ws[j].seq && ws[i].deadline_ms <= ws[j].deadline_ms
}

/// `post` is what a drain leaves of `pre`: some prefix of resolvable waiters
/// was popped (each resolved exactly once, its slot consumed), and every
/// waiter left behind was not resolvable.
pub open spec fn drained(
    pre: Seq<ClientWaiter>,
    post: Seq<ClientWaiter>,
    last_ack: u32,
    now: u64,
) -> bool {
    exists|k: int|
        0 <= k <= pre.len() && post =~= pre.skip(k) && (forall|i: int|
            0 <= i < k ==> decided((#[trigger] pre[i]).seq, pre[i].deadline_ms, last_ack, now))
            && (forall|i: int|
            k <= i < pre.len() ==> !decided(
                (#[trigger] pre[i]).seq,
                pre[i].deadline_ms,
                last_ack,
                now,
            ))
}

/// The channel's whole state, owned and mutated by the runner task alone.
pub struct ServerState {
    /// While set and in the future, the device counts as online.
    pub online_until: Option<u64>,
    /// The sequence the next accepted command will consume; starts at 1.
    pub next_seq: u32,
    /// The highest sequence the device has acknowledged.
    pub last_ack: u32,
    /// Publisher of the online flag; its last value is mirrored below.
    pub online_channel: tokio::sync::watch::Sender<bool>,
    /// Mirror of the last value published on `online_channel`.
    pub online_value: bool,
    /// The single in-flight command being retransmitted, if any.
    pub current_cmd: Option<Vec<u32>>,
    /// When to transmit next; set exactly while a command is in flight.
    pub next_send_attempt_at: Option<u64>,
    /// When to give up on the in-flight command; set exactly while one is.
    pub attempt_sending_cmd_until: Option<u64>,
    /// Outstanding waiters, in submission order.
    pub clients: VecDeque<ClientWaiter>,
    /// The latest time any transition has seen.
    pub clock: Ghost<u64>,
}

impl ServerState {
    /// The machine's invariant, established by `new` and preserved by every
    /// transition.
    pub open spec fn wf(&self) -> bool {
        &&& self.last_ack < self.next_seq
        &&& (self.current_cmd is Some <==> self.next_send_attempt_at is Some)
        &&& (self.current_cmd is Some <==> self.attempt_sending_cmd_until is Some)
        &&& (self.online_until is Some <==> self.online_value)
        &&& waiters_ordered(self.clients@)
        &&& forall|i: int|
            0 <= i < self.clients@.len() ==> (#[trigger] self.clients@[i]).seq < self.next_seq
        &&& forall|i: int|
            0 <= i < self.clients@.len() ==> (#[trigger] self.clients@[i]).deadline_ms
                <= self.clock@ + ATTEMPT_WINDOW_MS
    }

    /// A fresh machine: offline, sequence space starting at 1, nothing in
    /// flight, no waiters. The caller creates `online_channel` with `false`
    /// so that the mirror starts out exact.
    pub fn new(online_channel: tokio::sync::watch::Sender<bool>) -> (s: ServerState)
        ensures
            s.wf(),
            s.online_until is None,
            s.next_seq == 1u32,
            s.last_ack == 0u32,
            s.online_value == false,
            s.current_cmd is None,
            s.next_send_attempt_at is None,
            s.attempt_sending_cmd_until is None,
            s.clients@.len() == 0,
            s.clock@ == 0u64,
    {
        ServerState {
            online_until: None,
            next_seq: 1,
            last_ack: 0,
            online_channel,
            online_value: false,
            current_cmd: None,
            next_send_attempt_at: None,
            attempt_sending_cmd_until: None,
            clients: VecDeque::new(),
            clock: Ghost(0),
        }
    }

    /// The earliest instant among the four armed clocks, if any: online
    /// expiry, next transmission, give-up deadline, head waiter deadline.
    pub open spec fn next_wake(&self) -> Option<u64> {
        opt_min(
            opt_min(self.online_until, self.next_send_attempt_at),
            opt_min(self.attempt_sending_cmd_until, self.head_deadline()),
        )
    }

    /// The head waiter's deadline, if a waiter is queued.
    pub open spec fn head_deadline(&self) -> Option<u64> {
        if self.clients@.len() > 0 {
            Some(self.clients@[0].deadline_ms)
        } else {
            None
        }
    }

    /// How long to sleep from `now` until the earliest armed clock, clamped
    /// to zero; `None` when no clock is armed.
    pub open spec fn wake_delay(&self, now: u64) -> Option<u64> {
        match self.next_wake() {
            None => None,
            Some(t) => Some(if t <= now { 0u64 } else { (t - now) as u64 }),
        }
    }

    /// How long the runner may sleep before the next transition is due.
    pub fn next_timeout(&self, now: u64) -> (r: Option<u64>)
        ensures
            r == self.wake_delay(now),
    {
        let a = min_opt(self.online_until, self.next_send_attempt_at);
        let head = if self.clients.len() > 0 {
            Some(self.clients[0].deadline_ms)
        } else {
            None
        };
        let b = min_opt(self.attempt_sending_cmd_until, head);
        match min_opt(a, b) {
            None => None,
            Some(t) => Some(if t <= now {
                0
            } else {
                t - now
            }),
        }
    }

    /// A transmission is due: the retry clock is set and has passed.
    pub open spec fn send_due(&self, now: u64) -> bool {
        self.next_send_attempt_at matches Some(t) && t <= now
    }

    /// The in-flight command, when a transmission of it is due now.
    pub fn command_to_send_now(&self, now: u64) -> (r: Option<&Vec<u32>>)
        ensures
            r is Some <==> (self.send_due(now) && self.current_cmd is Some),
            r matches Some(c) ==> self.current_cmd == Some(*c),
    {
        let due = match self.next_send_attempt_at {
            Some(t) => t <= now,
            None => false,
        };
        if due {
            match &self.current_cmd {
                Some(c) => Some(c),
                None => None,
            }
        } else {
            None
        }
    }

    /// The frame a due transmission carries: the in-flight payload under the
    /// sequence of the latest accepted command.
    pub fn frame_to_send(&self, now: u64) -> (r: Option<Command>)
        requires
            self.wf(),
        ensures
            r is Some <==> (self.send_due(now) && self.current_cmd is Some),
            r matches Some(f) ==> (self.current_cmd matches Some(c) && f.data@ == c@
                && f.sequence == self.next_seq - 1),
    {
        match self.command_to_send_now(now) {
            Some(c) => Some(Command { data: copy_words(c), sequence: self.next_seq - 1 }),
            None => None,
        }
    }

    /// A transmission went out: push the retry clock one spacing ahead.
    pub fn successful_send(&mut self)
        requires
            old(self).wf(),
            old(self).next_send_attempt_at matches Some(t) ==> t <= u64::MAX - RETRY_SPACING_MS,
        ensures
            final(self).wf(),
            old(self).next_send_attempt_at matches Some(t) ==> final(self).next_send_attempt_at
                == Some((t + RETRY_SPACING_MS) as u64),
            old(self).next_send_attempt_at is None ==> final(self).next_send_attempt_at is None,
            final(self).online_until == old(self).online_until,
            final(self).online_value == old(self).online_value,
            final(self).next_seq == old(self).next_seq,
            final(self).last_ack == old(self).last_ack,
            final(self).current_cmd == old(self).current_cmd,
            final(self).attempt_sending_cmd_until == old(self).attempt_sending_cmd_until,
            final(self).clients@ == old(self).clients@,
            final(self).clock@ == old(self).clock@,
    {
        match &mut self.next_send_attempt_at {
            Some(t) => {
                *t = *t + RETRY_SPACING_MS;
            },
            None => {},
        }
    }

    /// A scheduled instant has passed: retire the online flag or the
    /// in-flight command if their clocks expired, then drain resolvable
    /// waiters.
    pub fn timeout(&mut self, now: u64)
        requires
            old(self).wf(),
            now >= old(self).clock@,
        ensures
            final(self).wf(),
            final(self).clock@ == now,
            opt_expired(old(self).online_until, now) ==> final(self).online_until is None
                && final(self).online_value == false,
            !opt_expired(old(self).online_until, now) ==> final(self).online_until == old(self).online_until
                && final(self).online_value == old(self).online_value,
            opt_expired(old(self).attempt_sending_cmd_until, now) ==> final(self).current_cmd is None
                && final(self).next_send_attempt_at is None
                && final(self).attempt_sending_cmd_until is None,
            !opt_expired(old(self).attempt_sending_cmd_until, now) ==> final(self).current_cmd == old(self).current_cmd
                && final(self).next_send_attempt_at == old(self).next_send_attempt_at
                && final(self).attempt_sending_cmd_until == old(self).attempt_sending_cmd_until,
            final(self).next_seq == old(self).next_seq,
            final(self).last_ack == old(self).last_ack,
            drained(old(self).clients@, final(self).clients@, old(self).last_ack, now),
            forall|i: int|
                0 <= i < final(self).clients@.len() ==> (#[trigger] final(self).clients@[i]).seq
                    > final(self).last_ack && final(self).clients@[i].deadline_ms > now,
    {
        self.clock = Ghost(now);

        let online_expired = match self.online_until {
            Some(t) => t <= now,
            None => false,
        };
        if online_expired {
            publish_online(&self.online_channel, false);
            self.online_value = false;
            self.online_until = None;
        }

        let attempt_expired = match self.attempt_sending_cmd_until {
            Some(t) => t <= now,
            None => false,
        };
        if attempt_expired {
            self.attempt_sending_cmd_until = None;
            self.next_send_attempt_at = None;
            self.current_cmd = None;
        }

        drain_clients(&mut self.clients, self.last_ack, now);
    }

    /// Submit a command. While offline the submission is rejected: the slot
    /// is resolved with `CanNotSendWhenOffline` and nothing changes. While
    /// online the command consumes the next sequence, supersedes any
    /// in-flight command, restarts the send clocks and queues its waiter.
    pub fn new_command(
        &mut self,
        cmd: MpcRequest,
        slot: tokio::sync::oneshot::Sender<MpcResponse>,
        now: u64,
    ) -> (accepted: bool)
        requires
            old(self).wf(),
            now >= old(self).clock@,
            now <= u64::MAX - ATTEMPT_WINDOW_MS,
            old(self).next_seq < u32::MAX,
        ensures
            final(self).wf(),
            final(self).clock@ == now,
            accepted == (old(self).online_until is Some),
            !accepted ==> final(self).online_until == old(self).online_until
                && final(self).online_value == old(self).online_value
                && final(self).next_seq == old(self).next_seq
                && final(self).last_ack == old(self).last_ack
                && final(self).current_cmd == old(self).current_cmd
                && final(self).next_send_attempt_at == old(self).next_send_attempt_at
                && final(self).attempt_sending_cmd_until == old(self).attempt_sending_cmd_until
                && final(self).clients@ == old(self).clients@,
            accepted ==> (cmd matches MpcRequest::SendRcRequest(payload)
                ==> final(self).next_seq == old(self).next_seq + 1
                && final(self).last_ack == old(self).last_ack
                && final(self).current_cmd == Some(payload)
                && final(self).attempt_sending_cmd_until == Some((now + ATTEMPT_WINDOW_MS) as u64)
                && final(self).next_send_attempt_at == Some(now)
                && final(self).online_until == old(self).online_until
                && final(self).online_value == old(self).online_value
                && final(self).clients@ =~= old(self).clients@.push(
                    (ClientWaiter {
                        seq: old(self).next_seq,
                        deadline_ms: (now + ATTEMPT_WINDOW_MS) as u64,
                        slot,
                    }),
                )),
    {
        self.clock = Ghost(now);
        match cmd {
            MpcRequest::SendRcRequest(payload) => {
                if self.online_until.is_none() {
                    reply_send(
                        slot,
                        MpcResponse::SendRcResponse(Err(Error::CanNotSendWhenOffline)),
                    );
                    return false;
                }
                let ack = self.next_seq;
                self.next_seq = self.next_seq + 1;
                self.current_cmd = Some(payload);
                self.attempt_sending_cmd_until = Some(now + ATTEMPT_WINDOW_MS);
                self.next_send_attempt_at = Some(now);
                self.clients.push_back(
                    ClientWaiter { seq: ack, deadline_ms: now + ATTEMPT_WINDOW_MS, slot },
                );
                true
            },
        }
    }

    /// A status frame arrived: refresh the online flag and its expiry,
    /// record the acknowledgement, retire the in-flight command if it was
    /// the one confirmed, fast-forward the sequence space if the device is
    /// ahead, then drain resolvable waiters.
    pub fn ack_from_remote(&mut self, seq: u32, now: u64)
        requires
            old(self).wf(),
            now >= old(self).clock@,
            now <= u64::MAX - ONLINE_TTL_MS,
            seq < u32::MAX,
        ensures
            final(self).wf(),
            final(self).clock@ == now,
            final(self).online_value == true,
            final(self).online_until == Some((now + ONLINE_TTL_MS) as u64),
            final(self).last_ack == seq,
            final(self).next_seq == if seq >= old(self).next_seq {
                (seq + 1) as u32
            } else {
                old(self).next_seq
            },
            seq + 1 == old(self).next_seq ==> final(self).current_cmd is None
                && final(self).next_send_attempt_at is None
                && final(self).attempt_sending_cmd_until is None,
            seq + 1 != old(self).next_seq ==> final(self).current_cmd == old(self).current_cmd
                && final(self).next_send_attempt_at == old(self).next_send_attempt_at
                && final(self).attempt_sending_cmd_until == old(self).attempt_sending_cmd_until,
            drained(old(self).clients@, final(self).clients@, seq, now),
            forall|i: int|
                0 <= i < final(self).clients@.len() ==> (#[trigger] final(self).clients@[i]).seq
                    > seq && final(self).clients@[i].deadline_ms > now,
    {
        self.clock = Ghost(now);

        if self.online_until.is_none() {
            publish_online(&self.online_channel, true);
            self.online_value = true;
        }
        self.online_until = Some(now + ONLINE_TTL_MS);
        self.last_ack = seq;

        if self.last_ack + 1 == self.next_seq {
            self.current_cmd = None;
            self.attempt_sending_cmd_until = None;
            self.next_send_attempt_at = None;
        }

        if self.next_seq <= self.last_ack {
            self.next_seq = seq + 1;
        }

        drain_clients(&mut self.clients, self.last_ack, now);
    }
}

/// The least of two optional instants, treating `None` as "not armed".
pub open spec fn opt_min(a: Option<u64>, b: Option<u64>) -> Option<u64> {
    match (a, b) {
        (Option::None, x) => x,
        (Option::Some(x), Option::None) => Some(x),
        (Option::Some(x), Option::Some(y)) => if x <= y {
            Some(x)
        } else {
            Some(y)
        },
    }
}

/// An armed clock that has passed.
pub open spec fn opt_expired(o: Option<u64>, now: u64) -> bool {
    o matches Some(t) && t <= now
}

fn min_opt(a: Option<u64>, b: Option<u64>) -> (r: Option<u64>)
    ensures
        r == opt_min(a, b),
{
    match (a, b) {
        (None, x) => x,
        (Some(x), None) => Some(x),
        (Some(x), Some(y)) => if x <= y {
            Some(x)
        } else {
            Some(y)
        },
    }
}

fn copy_words(v: &Vec<u32>) -> (r: Vec<u32>)
    ensures
        r@ == v@,
{
    let mut r: Vec<u32> = Vec::new();
    let mut i: usize = 0;
    while i < v.len()
        invariant
            i <= v.len(),
            r@ == v@.take(i as int),
        decreases v.len() - i,
    {
        r.push(v[i]);
        assert(r@ =~= v@.take(i + 1));
        i = i + 1;
    }
    assert(r@ =~= v@);
    r
}

fn decide(seq: u32, last_ack: u32) -> (r: MpcResponse)
    ensures
        r == resolution(seq, last_ack),
{
    if seq <= last_ack {
        MpcResponse::SendRcResponse(Ok(()))
    } else {
        MpcResponse::SendRcResponse(Err(Error::IRAckTimeout))
    }
}

/// Pop waiters from the front while the head is resolvable, resolving each
/// popped waiter exactly once with the verdict `resolution` assigns it; stop
/// at the first head that is still pending, which by submission order means
/// every waiter left behind is still pending.
fn drain_clients(clients: &mut VecDeque<ClientWaiter>, last_ack: u32, now: u64)
    requires
        waiters_ordered(old(clients)@),
    ensures
        waiters_ordered(final(clients)@),
        drained(old(clients)@, final(clients)@, last_ack, now),
        forall|i: int|
            0 <= i < final(clients)@.len() ==> !decided(
                (#[trigger] final(clients)@[i]).seq,
                final(clients)@[i].deadline_ms,
                last_ack,
                now,
            ),
{
    let ghost pre = clients@;
    let ghost mut k: int = 0;
    loop
        invariant
            0 <= k <= pre.len(),
            clients@ =~= pre.skip(k),
            waiters_ordered(pre),
            forall|i: int|
                0 <= i < k ==> decided((#[trigger] pre[i]).seq, pre[i].deadline_ms, last_ack, now),
        ensures
            0 <= k <= pre.len(),
            clients@ =~= pre.skip(k),
            forall|i: int|
                0 <= i < k ==> decided((#[trigger] pre[i]).seq, pre[i].deadline_ms, last_ack, now),
            clients@.len() > 0 ==> !decided(clients@[0].seq, clients@[0].deadline_ms, last_ack, now),
        decreases clients.len(),
    {
        match clients.pop_front() {
            None => {
                assert(pre.skip(k).len() == 0);
                break ;
            },
            Some(w) => {
                assert(w == pre[k]);
                if w.seq <= last_ack || w.deadline_ms <= now {
                    let response = decide(w.seq, last_ack);
                    reply_send(w.slot, response);
                    proof {
                        assert(clients@ =~= pre.skip(k + 1));
                        k = k + 1;
                    }
                } else {
                    clients.push_front(w);
                    assert(clients@ =~= pre.skip(k));
                    break ;
                }
            },
        }
    }
    proof {
        assert(clients@ =~= pre.skip(k));
        assert forall|i: int| 0 <= i < clients@.len() implies !decided(
            (#[trigger] clients@[i]).seq,
            clients@[i].deadline_ms,
            last_ack,
            now,
        ) by {
            assert(clients@[i] == pre[k + i]);
            if i > 0 {
                assert(pre[k].seq < pre[k + i].seq && pre[k].deadline_ms <= pre[k + i].deadline_ms);
            }
        }
        assert(drained(pre, clients@, last_ack, now));
    }
}

/// Law: the armed timer never oversleeps a pending clock: whenever one of
/// the four clocks is set, `next_wake` is set and no later than it.
pub proof fn lemma_wake_is_earliest(s: ServerState)
    ensures
        s.online_until matches Some(t) ==> (s.next_wake() matches Some(w) && w <= t),
        s.next_send_attempt_at matches Some(t) ==> (s.next_wake() matches Some(w) && w <= t),
        s.attempt_sending_cmd_until matches Some(t) ==> (s.next_wake() matches Some(w) && w <= t),
        s.clients@.len() > 0 ==> (s.next_wake() matches Some(w) && w
            <= s.clients@[0].deadline_ms),
{
}

/// Law: transmissions of one command keep the retry spacing: while the next
/// transmission is scheduled at `n`, no transmission is due strictly before
/// `n`; `successful_send` moves that schedule a full spacing ahead.
pub proof fn lemma_retry_spacing(s: ServerState, n: u64, t: u64)
    requires
        s.next_send_attempt_at == Some(n),
        t < n,
    ensures
        !s.send_due(t),
{
}

} // verus!
