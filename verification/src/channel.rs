//! Reliable delivery over datagrams, for one peer: sequence numbers, the
//! messages that wait for their acknowledgement, retransmission, and the
//! signs of life of the peer.
//!
//! The channel does no I/O. It hands out the datagrams that are to be sent,
//! and is told the time, in milliseconds, by whoever drives it.

use vstd::prelude::*;
use crate::codec::encode;
use crate::format::{enc_message, fits};
use crate::message::{GameMessage, MessageView, Payload};
use crate::wire::copy_bytes;

verus! {

/// How often a message is transmitted again before it is given up.
pub const MAX_RETRANSMISSIONS: u32 = 5;

/// The milliseconds from `then` to `now`; none if `now` is not later.
pub open spec fn elapsed(now: u64, then: u64) -> nat {
    if now >= then {
        (now - then) as nat
    } else {
        0
    }
}

/// The milliseconds from `then` to `now`; none if `now` is not later.
pub fn elapsed_ms(now: u64, then: u64) -> (r: u64)
    ensures
        r == elapsed(now, then),
{
    if now >= then {
        now - then
    } else {
        0
    }
}

/// The time after which a message without acknowledgement is sent again: a
/// tenth of the tick period.
pub open spec fn retransmit_delay(state_delay_ms: i32) -> nat {
    if state_delay_ms <= 0 {
        0
    } else {
        (state_delay_ms / 10) as nat
    }
}

/// The time after which a message without acknowledgement is sent again.
pub fn retransmit_delay_ms(state_delay_ms: i32) -> (r: u64)
    ensures
        r == retransmit_delay(state_delay_ms),
{
    if state_delay_ms <= 0 {
        0
    } else {
        (state_delay_ms / 10) as u64
    }
}

/// A silent peer is lost once more than eight tenths of the tick period
/// have passed since its last sign of life.
pub open spec fn silent_too_long(now: u64, last_seen: u64, state_delay_ms: i32) -> bool {
    5 * elapsed(now, last_seen) > 4 * (if state_delay_ms <= 0 { 0int } else { state_delay_ms as int })
}

/// A datagram that is to be sent.
#[derive(Clone, Debug)]
pub struct Datagram {
    /// The `host:port` of the receiver.
    pub addr: String,
    pub bytes: Vec<u8>,
}

/// The mathematical value of a [`Datagram`].
pub struct DatagramView {
    pub addr: Seq<char>,
    pub bytes: Seq<u8>,
}

impl View for Datagram {
    type V = DatagramView;

    open spec fn view(&self) -> DatagramView {
        DatagramView { addr: self.addr@, bytes: self.bytes@ }
    }
}

/// The values of a list of datagrams, element by element.
pub open spec fn datagram_views(s: Seq<Datagram>) -> Seq<DatagramView> {
    Seq::new(s.len(), |i: int| s[i]@)
}

/// A message that waits for its acknowledgement.
#[derive(Clone, Debug)]
pub struct PendingMsg {
    /// The sequence number under which the acknowledgement will come.
    pub seq: i64,
    /// The encoded message.
    pub msg: Vec<u8>,
    /// When the message was last transmitted, if it ever was.
    pub send_time: Option<u64>,
    /// How often the message has been transmitted.
    pub send_count: u32,
    /// The `host:port` of the receiver.
    pub addr: String,
}

/// The mathematical value of a [`PendingMsg`].
pub struct PendingView {
    pub seq: i64,
    pub msg: Seq<u8>,
    pub send_time: Option<u64>,
    pub send_count: u32,
    pub addr: Seq<char>,
}

impl View for PendingMsg {
    type V = PendingView;

    open spec fn view(&self) -> PendingView {
        PendingView {
            seq: self.seq,
            msg: self.msg@,
            send_time: self.send_time,
            send_count: self.send_count,
            addr: self.addr@,
        }
    }
}

impl PendingView {
    /// The message is due for a transmission: it was never transmitted, or
    /// more than `delay` milliseconds ago.
    pub open spec fn due(self, now: u64, delay: nat) -> bool {
        match self.send_time {
            None => true,
            Some(t) => elapsed(now, t) > delay,
        }
    }

    /// The message after one more transmission at the time `now`.
    pub open spec fn sent(self, now: u64) -> PendingView {
        PendingView { send_time: Some(now), send_count: (self.send_count + 1) as u32, ..self }
    }

    /// The datagram that transmits the message.
    pub open spec fn datagram(self) -> DatagramView {
        DatagramView { addr: self.addr, bytes: self.msg }
    }

    /// The message after a tick at the time `now`.
    pub open spec fn ticked(self, now: u64, delay: nat) -> PendingView {
        if self.due(now, delay) {
            self.sent(now)
        } else {
            self
        }
    }
}

impl PendingMsg {
    /// A message that has not been transmitted yet.
    pub fn new(seq: i64, msg: Vec<u8>, addr: String) -> (p: PendingMsg)
        ensures
            p@ == (PendingView {
                seq,
                msg: msg@,
                send_time: None,
                send_count: 0,
                addr: addr@,
            }),
    {
        PendingMsg { seq, msg, send_time: None, send_count: 0, addr }
    }

    /// Notes one transmission at the time `now` and returns the datagram
    /// that is to be sent.
    pub fn send(&mut self, now: u64) -> (d: Datagram)
        requires
            old(self).send_count < u32::MAX,
        ensures
            final(self)@ == old(self)@.sent(now),
            d@ == old(self)@.datagram(),
    {
        self.send_time = Some(now);
        self.send_count = self.send_count + 1;
        proof {
            assert(self.msg@.subrange(0, self.msg.len() as int) =~= self.msg@);
        }
        Datagram { addr: self.addr.clone(), bytes: copy_bytes(&self.msg, 0, self.msg.len()) }
    }
}

/// The values of a list of pending messages, element by element.
pub open spec fn pending_views(s: Seq<PendingMsg>) -> Seq<PendingView> {
    Seq::new(s.len(), |i: int| s[i]@)
}

/// Some message of the list waits under the sequence number `seq`.
pub open spec fn waits(pending: Seq<PendingView>, seq: i64) -> bool {
    exists|i: int| 0 <= i < pending.len() && (#[trigger] pending[i]).seq == seq
}

/// The list without the messages that wait under `seq`.
pub open spec fn acked(pending: Seq<PendingView>, seq: i64) -> Seq<PendingView>
    decreases pending.len(),
{
    if pending.len() == 0 {
        Seq::empty()
    } else {
        let rest = acked(pending.drop_last(), seq);
        if pending.last().seq == seq {
            rest
        } else {
            rest.push(pending.last())
        }
    }
}

/// The list after a tick: every message that was due has been transmitted
/// once more, and those that have then been transmitted more than five
/// times, once and five times again, are gone.
pub open spec fn retained(pending: Seq<PendingView>, now: u64, delay: nat) -> Seq<PendingView>
    decreases pending.len(),
{
    if pending.len() == 0 {
        Seq::empty()
    } else {
        let rest = retained(pending.drop_last(), now, delay);
        let p = pending.last().ticked(now, delay);
        if p.send_count > MAX_RETRANSMISSIONS {
            rest
        } else {
            rest.push(p)
        }
    }
}

/// The datagrams of a tick: one for every message that was due, in the
/// order of the list.
pub open spec fn emitted(pending: Seq<PendingView>, now: u64, delay: nat) -> Seq<DatagramView>
    decreases pending.len(),
{
    if pending.len() == 0 {
        Seq::empty()
    } else {
        let rest = emitted(pending.drop_last(), now, delay);
        if pending.last().due(now, delay) {
            rest.push(pending.last().datagram())
        } else {
            rest
        }
    }
}

/// The datagram transmits a message of the list that is due.
pub open spec fn carries_due(pending: Seq<PendingView>, d: DatagramView, now: u64, delay: nat) -> bool {
    exists|i: int|
        0 <= i < pending.len() && (#[trigger] pending[i]).datagram() == d && pending[i].due(
            now,
            delay,
        )
}

/// No two messages of the list wait under the same sequence number.
pub open spec fn seqs_distinct(pending: Seq<PendingView>) -> bool {
    forall|i: int, j: int|
        0 <= i < pending.len() && 0 <= j < pending.len() && i != j ==> (#[trigger] pending[i]).seq
            != (#[trigger] pending[j]).seq
}

/// Every message of the list has been transmitted at most five times:
/// once and at most four times again. The fifth retransmission is its last.
pub open spec fn counts_bounded(pending: Seq<PendingView>) -> bool {
    forall|i: int|
        0 <= i < pending.len() ==> (#[trigger] pending[i]).send_count <= MAX_RETRANSMISSIONS
}

/// What `acked` keeps and what it drops.
pub proof fn lemma_acked(pending: Seq<PendingView>, seq: i64)
    ensures
        !waits(acked(pending, seq), seq),
        forall|p: PendingView|
            #[trigger] acked(pending, seq).contains(p) <==> (pending.contains(p) && p.seq != seq),
        acked(pending, seq).len() <= pending.len(),
        !waits(pending, seq) ==> acked(pending, seq) == pending,
        seqs_distinct(pending) ==> seqs_distinct(acked(pending, seq)),
        seqs_distinct(pending) && waits(pending, seq) ==> acked(pending, seq).len() == pending.len()
            - 1,
        forall|s: i64|
            #[trigger] waits(acked(pending, seq), s) <==> (waits(pending, s) && s != seq),
    decreases pending.len(),
{
    let out = acked(pending, seq);
    if pending.len() > 0 {
        let init = pending.drop_last();
        let last = pending.last();
        let rest = acked(init, seq);
        lemma_acked(init, seq);
        assert(pending[pending.len() - 1] == last);
        assert forall|p: PendingView| pending.contains(p) <==> (init.contains(p) || p == last) by {
            if pending.contains(p) {
                let k = choose|k: int| 0 <= k < pending.len() && pending[k] == p;
                if k < init.len() {
                    assert(init[k] == p);
                }
            }
            if init.contains(p) {
                let k = choose|k: int| 0 <= k < init.len() && init[k] == p;
                assert(pending[k] == p);
            }
        }
        assert forall|s: i64| waits(pending, s) <==> (waits(init, s) || last.seq == s) by {
            if waits(pending, s) {
                let k = choose|k: int| 0 <= k < pending.len() && (#[trigger] pending[k]).seq == s;
                if k < init.len() {
                    assert(init[k].seq == s);
                }
            }
            if waits(init, s) {
                let k = choose|k: int| 0 <= k < init.len() && (#[trigger] init[k]).seq == s;
                assert(pending[k].seq == s);
            }
        }
        if seqs_distinct(pending) {
            assert(seqs_distinct(init)) by {
                assert forall|i: int, j: int|
                    0 <= i < init.len() && 0 <= j < init.len() && i != j implies (
                #[trigger] init[i]).seq != (#[trigger] init[j]).seq by {
                    assert(init[i] == pending[i] && init[j] == pending[j]);
                }
            }
        }
        if last.seq != seq {
            assert(out == rest.push(last));
            assert(out[rest.len() as int] == last);
            assert forall|p: PendingView| out.contains(p) <==> (rest.contains(p) || p == last) by {
                if out.contains(p) {
                    let k = choose|k: int| 0 <= k < out.len() && out[k] == p;
                    if k < rest.len() {
                        assert(rest[k] == p);
                    }
                }
                if rest.contains(p) {
                    let k = choose|k: int| 0 <= k < rest.len() && rest[k] == p;
                    assert(out[k] == p);
                }
            }
            assert forall|s: i64| waits(out, s) <==> (waits(rest, s) || last.seq == s) by {
                if waits(out, s) {
                    let k = choose|k: int| 0 <= k < out.len() && (#[trigger] out[k]).seq == s;
                    if k < rest.len() {
                        assert(rest[k].seq == s);
                    }
                }
                if waits(rest, s) {
                    let k = choose|k: int| 0 <= k < rest.len() && (#[trigger] rest[k]).seq == s;
                    assert(out[k].seq == s);
                }
            }
            if !waits(pending, seq) {
                assert(rest == init);
                assert(out =~= pending);
            }
            if seqs_distinct(pending) {
                assert forall|i: int, j: int|
                    0 <= i < out.len() && 0 <= j < out.len() && i != j implies (
                #[trigger] out[i]).seq != (#[trigger] out[j]).seq by {
                    if i < rest.len() && j < rest.len() {
                        assert(out[i] == rest[i] && out[j] == rest[j]);
                    } else if i < rest.len() {
                        assert(out[i] == rest[i]);
                        assert(waits(rest, out[i].seq));
                        if out[i].seq == last.seq {
                            let k = choose|k: int|
                                0 <= k < init.len() && (#[trigger] init[k]).seq == last.seq;
                            assert(pending[k].seq == pending[pending.len() - 1].seq);
                        }
                    } else if j < rest.len() {
                        assert(out[j] == rest[j]);
                        assert(waits(rest, out[j].seq));
                        if out[j].seq == last.seq {
                            let k = choose|k: int|
                                0 <= k < init.len() && (#[trigger] init[k]).seq == last.seq;
                            assert(pending[k].seq == pending[pending.len() - 1].seq);
                        }
                    }
                }
            }
        } else {
            if seqs_distinct(pending) {
                // the last one is the only one that waits under `seq`
                if waits(init, seq) {
                    let k = choose|k: int| 0 <= k < init.len() && (#[trigger] init[k]).seq == seq;
                    assert(pending[k].seq == pending[pending.len() - 1].seq);
                }
                assert(rest == init);
            }
        }
    }
}

/// What a tick leaves of a list whose counts are bounded.
pub proof fn lemma_retained(pending: Seq<PendingView>, now: u64, delay: nat)
    requires
        counts_bounded(pending),
    ensures
        counts_bounded(retained(pending, now, delay)),
        retained(pending, now, delay).len() <= pending.len(),
        emitted(pending, now, delay).len() <= pending.len(),
        forall|s: i64| #[trigger] waits(retained(pending, now, delay), s) ==> waits(pending, s),
        seqs_distinct(pending) ==> seqs_distinct(retained(pending, now, delay)),
        forall|k: int|
            0 <= k < emitted(pending, now, delay).len() ==> carries_due(
                pending,
                #[trigger] emitted(pending, now, delay)[k],
                now,
                delay,
            ),
    decreases pending.len(),
{
    let out = retained(pending, now, delay);
    let sent = emitted(pending, now, delay);
    if pending.len() > 0 {
        let init = pending.drop_last();
        let last = pending.last();
        let rest = retained(init, now, delay);
        assert forall|i: int| 0 <= i < init.len() implies (#[trigger] init[i]).send_count
            <= MAX_RETRANSMISSIONS by {
            assert(init[i] == pending[i]);
        }
        lemma_retained(init, now, delay);
        let p = last.ticked(now, delay);
        assert(pending[pending.len() - 1] == last);
        assert forall|s: i64| waits(out, s) implies waits(pending, s) by {
            let k = choose|k: int| 0 <= k < out.len() && (#[trigger] out[k]).seq == s;
            if k < rest.len() {
                assert(rest[k].seq == s);
                assert(waits(rest, s));
                let k0 = choose|k0: int| 0 <= k0 < init.len() && (#[trigger] init[k0]).seq == s;
                assert(pending[k0].seq == s);
            } else {
                assert(pending[pending.len() - 1].seq == s);
            }
        }
        if seqs_distinct(pending) {
            assert(seqs_distinct(init)) by {
                assert forall|i: int, j: int|
                    0 <= i < init.len() && 0 <= j < init.len() && i != j implies (
                #[trigger] init[i]).seq != (#[trigger] init[j]).seq by {
                    assert(init[i] == pending[i] && init[j] == pending[j]);
                }
            }
            assert forall|i: int, j: int|
                0 <= i < out.len() && 0 <= j < out.len() && i != j implies (#[trigger] out[i]).seq
                != (#[trigger] out[j]).seq by {
                if i < rest.len() && j < rest.len() {
                    assert(out[i] == rest[i] && out[j] == rest[j]);
                } else {
                    let low = if i < rest.len() { i } else { j };
                    assert(out[low] == rest[low]);
                    assert(waits(rest, rest[low].seq));
                    if rest[low].seq == last.seq {
                        let k0 = choose|k0: int|
                            0 <= k0 < init.len() && (#[trigger] init[k0]).seq == last.seq;
                        assert(pending[k0].seq == pending[pending.len() - 1].seq);
                    }
                }
            }
        }
        let before = emitted(init, now, delay);
        assert forall|k: int| 0 <= k < sent.len() implies carries_due(
            pending,
            #[trigger] sent[k],
            now,
            delay,
        ) by {
            if k < before.len() {
                assert(sent[k] == before[k]);
                assert(carries_due(init, before[k], now, delay));
                let i = choose|i: int|
                    0 <= i < init.len() && (#[trigger] init[i]).datagram() == before[k]
                        && init[i].due(now, delay);
                assert(pending[i] == init[i]);
            } else {
                assert(pending[pending.len() - 1].datagram() == sent[k]);
            }
        }
    }
}

/// The state of the reliable delivery to and from one peer.
#[derive(Clone, Debug)]
pub struct ReliableChannel {
    /// The sequence number of the next message that is sent.
    pub next_seq: i64,
    /// The sequence number of the latest state that was applied.
    pub last_applied_seq: i64,
    /// The messages that wait for their acknowledgement.
    pub pending: Vec<PendingMsg>,
    /// When the peer last gave a sign of life.
    pub last_seen_time: u64,
    /// The sequence number of the latest ping.
    pub ping_seq: i64,
}

/// The mathematical value of a [`ReliableChannel`].
pub struct ChannelView {
    pub next_seq: i64,
    pub last_applied_seq: i64,
    pub pending: Seq<PendingView>,
    pub last_seen_time: u64,
    pub ping_seq: i64,
}

impl View for ReliableChannel {
    type V = ChannelView;

    open spec fn view(&self) -> ChannelView {
        ChannelView {
            next_seq: self.next_seq,
            last_applied_seq: self.last_applied_seq,
            pending: pending_views(self.pending@),
            last_seen_time: self.last_seen_time,
            ping_seq: self.ping_seq,
        }
    }
}

/// The sequence number after `seq`, held at the largest value.
pub open spec fn seq_after(seq: i64) -> i64 {
    if seq == i64::MAX {
        i64::MAX
    } else {
        (seq + 1) as i64
    }
}

impl ChannelView {
    /// No two pending messages share a sequence number, and none has been
    /// transmitted more than five times.
    pub open spec fn wf(self) -> bool {
        &&& seqs_distinct(self.pending)
        &&& counts_bounded(self.pending)
    }

    /// A state or a role change with the sequence number `seq` is applied.
    pub open spec fn accepts(self, seq: i64) -> bool {
        seq >= self.last_applied_seq
    }

    /// The channel after a state or a role change with the sequence number
    /// `seq` has come in.
    pub open spec fn received(self, seq: i64) -> ChannelView {
        if self.accepts(seq) {
            ChannelView { last_applied_seq: seq, ..self }
        } else {
            self
        }
    }

    /// The peer is due for a ping: it has been silent for longer than the
    /// retransmission delay, and no ping waits for its acknowledgement.
    pub open spec fn ping_due(self, now: u64, state_delay_ms: i32) -> bool {
        elapsed(now, self.last_seen_time) > retransmit_delay(state_delay_ms) && !waits(
            self.pending,
            self.ping_seq,
        )
    }

    /// The message as the channel sends it: under the next sequence number.
    pub open spec fn stamped(self, m: MessageView) -> MessageView {
        MessageView { msg_seq: self.next_seq, ..m }
    }

    /// The channel after it has sent the message `m` to `addr` at the time `now`.
    pub open spec fn after_send(self, m: MessageView, addr: Seq<char>, now: u64) -> ChannelView {
        let sent = self.stamped(m);
        ChannelView {
            next_seq: seq_after(self.next_seq),
            pending: if sent.payload.needs_ack() {
                acked(self.pending, self.next_seq).push(
                    PendingView {
                        seq: self.next_seq,
                        msg: enc_message(sent),
                        send_time: Some(now),
                        send_count: 1,
                        addr,
                    },
                )
            } else {
                self.pending
            },
            ping_seq: if sent.payload is Ping {
                self.next_seq
            } else {
                self.ping_seq
            },
            ..self
        }
    }
}

impl ChannelView {
    /// The channel after states or role changes with the given sequence
    /// numbers have come in, one after the other.
    pub open spec fn received_all(self, seqs: Seq<i64>) -> ChannelView
        decreases seqs.len(),
    {
        if seqs.len() == 0 {
            self
        } else {
            self.received_all(seqs.drop_last()).received(seqs.last())
        }
    }
}

/// What comes in never lowers the sequence number that is in force.
pub proof fn lemma_received_all_grows(c: ChannelView, seqs: Seq<i64>, n: int)
    requires
        0 <= n <= seqs.len(),
    ensures
        c.received_all(seqs).last_applied_seq >= c.received_all(
            seqs.subrange(0, n),
        ).last_applied_seq,
    decreases seqs.len() - n,
{
    if n < seqs.len() {
        assert(seqs.subrange(0, n + 1).drop_last() =~= seqs.subrange(0, n));
        lemma_received_all_grows(c, seqs, n + 1);
    } else {
        assert(seqs.subrange(0, n) =~= seqs);
    }
}

/// Once a state has been applied, no state with a smaller sequence number
/// is applied afterwards: if the `i`-th of the states that came in was
/// applied, then after all of them a state with a smaller sequence number
/// than that one is passed over.
pub proof fn lemma_monotone_application(c: ChannelView, seqs: Seq<i64>, i: int, later: i64)
    requires
        0 <= i < seqs.len(),
        c.received_all(seqs.subrange(0, i)).accepts(seqs[i]),
        later < seqs[i],
    ensures
        !c.received_all(seqs).accepts(later),
{
    assert(seqs.subrange(0, i + 1).drop_last() =~= seqs.subrange(0, i));
    assert(seqs.subrange(0, i + 1).last() == seqs[i]);
    lemma_received_all_grows(c, seqs, i + 1);
}

/// How many transmissions the messages of the list have left between them:
/// for each, what it lacks to its last transmission.
pub open spec fn budget(pending: Seq<PendingView>) -> int
    decreases pending.len(),
{
    if pending.len() == 0 {
        0
    } else {
        budget(pending.drop_last()) + (MAX_RETRANSMISSIONS + 1 - pending.last().send_count)
    }
}

/// The list after ticks at the given times, one after the other.
pub open spec fn retained_all(pending: Seq<PendingView>, times: Seq<u64>, delay: nat) -> Seq<
    PendingView,
>
    decreases times.len(),
{
    if times.len() == 0 {
        pending
    } else {
        retained(retained_all(pending, times.drop_last(), delay), times.last(), delay)
    }
}

/// The number of the datagrams that ticks at the given times retransmit.
pub open spec fn emitted_all(pending: Seq<PendingView>, times: Seq<u64>, delay: nat) -> int
    decreases times.len(),
{
    if times.len() == 0 {
        0
    } else {
        emitted_all(pending, times.drop_last(), delay) + emitted(
            retained_all(pending, times.drop_last(), delay),
            times.last(),
            delay,
        ).len()
    }
}

/// Every datagram of a tick is paid for out of the budget of the list.
pub proof fn lemma_tick_budget(pending: Seq<PendingView>, now: u64, delay: nat)
    requires
        counts_bounded(pending),
    ensures
        emitted(pending, now, delay).len() + budget(retained(pending, now, delay)) <= budget(
            pending,
        ),
        budget(pending) >= 0,
    decreases pending.len(),
{
    if pending.len() > 0 {
        let init = pending.drop_last();
        assert forall|i: int| 0 <= i < init.len() implies (#[trigger] init[i]).send_count
            <= MAX_RETRANSMISSIONS by {
            assert(init[i] == pending[i]);
        }
        assert(pending[pending.len() - 1].send_count <= MAX_RETRANSMISSIONS);
        lemma_tick_budget(init, now, delay);
        let rest = retained(init, now, delay);
        let p = pending.last().ticked(now, delay);
        if p.send_count <= MAX_RETRANSMISSIONS {
            assert(rest.push(p).drop_last() =~= rest);
        }
    }
}

/// A message is retransmitted at most five times: whenever the channel
/// ticks, and however often, the datagrams that it retransmits are no more
/// than the budget of the messages that wait, which is five for each
/// message that has been transmitted once.
pub proof fn lemma_retransmissions_bounded(pending: Seq<PendingView>, times: Seq<u64>, delay: nat)
    requires
        counts_bounded(pending),
    ensures
        counts_bounded(retained_all(pending, times, delay)),
        emitted_all(pending, times, delay) + budget(retained_all(pending, times, delay)) <= budget(
            pending,
        ),
        emitted_all(pending, times, delay) <= budget(pending),
        pending.len() == 1 && pending[0].send_count == 1 ==> emitted_all(pending, times, delay)
            <= MAX_RETRANSMISSIONS,
    decreases times.len(),
{
    if times.len() > 0 {
        lemma_retransmissions_bounded(pending, times.drop_last(), delay);
        let before = retained_all(pending, times.drop_last(), delay);
        lemma_retained(before, times.last(), delay);
        lemma_tick_budget(before, times.last(), delay);
    }
    lemma_tick_budget(retained_all(pending, times, delay), 0, delay);
    if pending.len() == 1 {
        assert(pending.drop_last() =~= Seq::<PendingView>::empty());
        assert(budget(pending.drop_last()) == 0);
    }
}

impl ReliableChannel {
    /// The channel is well formed; see [`ChannelView::wf`].
    pub open spec fn wf(&self) -> bool {
        self@.wf()
    }

    /// A channel on which nothing has been sent or applied yet.
    pub fn new(now: u64) -> (c: ReliableChannel)
        ensures
            c@ == (ChannelView {
                next_seq: 0,
                last_applied_seq: -1i64,
                pending: Seq::empty(),
                last_seen_time: now,
                ping_seq: -1i64,
            }),
            c.wf(),
    {
        let c = ReliableChannel {
            next_seq: 0,
            last_applied_seq: -1,
            pending: Vec::new(),
            last_seen_time: now,
            ping_seq: -1,
        };
        proof {
            assert(c@.pending =~= Seq::empty());
        }
        c
    }

    /// Whether a message waits under the sequence number `seq`.
    pub fn is_pending(&self, seq: i64) -> (r: bool)
        ensures
            r == waits(self@.pending, seq),
    {
        let mut i: usize = 0;
        while i < self.pending.len()
            invariant
                i <= self.pending.len(),
                forall|k: int| 0 <= k < i ==> (#[trigger] self@.pending[k]).seq != seq,
            decreases self.pending.len() - i,
        {
            if self.pending[i].seq == seq {
                proof {
                    assert(self@.pending[i as int].seq == seq);
                }
                return true;
            }
            i += 1;
        }
        false
    }

    /// Takes the messages that wait under `seq` off the list.
    fn drop_pending(&mut self, seq: i64)
        ensures
            final(self)@ == (ChannelView { pending: acked(old(self)@.pending, seq), ..old(self)@ }),
    {
        let mut kept: Vec<PendingMsg> = Vec::new();
        let mut rest: Vec<PendingMsg> = Vec::new();
        core::mem::swap(&mut rest, &mut self.pending);
        let ghost all = pending_views(rest@);
        let ghost total = rest.len();
        // `rest` is walked from its end, so `kept` comes out reversed
        let mut tail: Vec<PendingMsg> = Vec::new();
        while rest.len() > 0
            invariant
                rest.len() <= total,
                pending_views(rest@) == all.subrange(0, rest.len() as int),
                all.len() == total,
                acked(all, seq) == acked(pending_views(rest@), seq) + pending_views(tail@).reverse(),
            decreases rest.len(),
        {
            let ghost before = pending_views(rest@);
            let ghost tail_before = pending_views(tail@);
            let p = rest.pop().unwrap();
            proof {
                assert(pending_views(rest@) =~= before.drop_last());
                assert(before.last() == p@);
                assert(pending_views(rest@) =~= all.subrange(0, rest.len() as int));
            }
            if p.seq != seq {
                tail.push(p);
                proof {
                    assert(pending_views(tail@) =~= tail_before.push(p@));
                    assert(pending_views(tail@).reverse() =~= seq![p@] + tail_before.reverse());
                    assert(acked(before, seq) == acked(before.drop_last(), seq).push(p@));
                    assert(acked(all, seq) =~= acked(pending_views(rest@), seq) + pending_views(
                        tail@,
                    ).reverse());
                }
            }
        }
        proof {
            assert(pending_views(rest@) =~= Seq::empty());
            assert(acked(all, seq) =~= pending_views(tail@).reverse());
        }
        while tail.len() > 0
            invariant
                acked(all, seq) == pending_views(kept@) + pending_views(tail@).reverse(),
            decreases tail.len(),
        {
            let ghost tail_before = pending_views(tail@);
            let ghost kept_before = pending_views(kept@);
            let p = tail.pop().unwrap();
            kept.push(p);
            proof {
                assert(pending_views(tail@) =~= tail_before.drop_last());
                assert(pending_views(kept@) =~= kept_before.push(p@));
                assert(tail_before.reverse() =~= seq![p@] + pending_views(tail@).reverse());
                assert(acked(all, seq) =~= pending_views(kept@) + pending_views(tail@).reverse());
            }
        }
        proof {
            assert(pending_views(tail@).reverse() =~= Seq::empty());
            assert(acked(all, seq) =~= pending_views(kept@));
        }
        self.pending = kept;
    }

    /// Takes note of an acknowledgement for the sequence number `seq` that
    /// came in at the time `now`: the message that waits under `seq` leaves
    /// the list, and the peer has given a sign of life.
    pub fn on_ack(&mut self, seq: i64, now: u64)
        requires
            old(self).wf(),
        ensures
            final(self)@ == (ChannelView {
                pending: acked(old(self)@.pending, seq),
                last_seen_time: now,
                ..old(self)@
            }),
            final(self).wf(),
            !waits(final(self)@.pending, seq),
            final(self)@.pending.len() == old(self)@.pending.len() - (if waits(
                old(self)@.pending,
                seq,
            ) {
                1int
            } else {
                0int
            }),
    {
        proof {
            lemma_acked(self@.pending, seq);
            lemma_acked_bounded(self@.pending, seq);
        }
        self.drop_pending(seq);
        self.last_seen_time = now;
    }

    /// Takes note of a sign of life of the peer at the time `now`.
    pub fn heard(&mut self, now: u64)
        ensures
            final(self)@ == (ChannelView { last_seen_time: now, ..old(self)@ }),
    {
        self.last_seen_time = now;
    }

    /// Decides whether a state or a role change that came in under the
    /// sequence number `seq` is applied: it is unless a later one has been
    /// applied already.
    pub fn accept(&mut self, seq: i64) -> (applied: bool)
        ensures
            applied == old(self)@.accepts(seq),
            final(self)@ == old(self)@.received(seq),
            final(self).last_applied_seq >= old(self).last_applied_seq,
    {
        if seq >= self.last_applied_seq {
            self.last_applied_seq = seq;
            true
        } else {
            false
        }
    }

    /// Whether the peer is due for a ping.
    pub fn should_ping(&self, now: u64, state_delay_ms: i32) -> (r: bool)
        ensures
            r == self@.ping_due(now, state_delay_ms),
    {
        elapsed_ms(now, self.last_seen_time) > retransmit_delay_ms(state_delay_ms)
            && !self.is_pending(self.ping_seq)
    }

    /// Whether the peer has been silent for so long that it is given up.
    pub fn expired(&self, now: u64, state_delay_ms: i32) -> (r: bool)
        ensures
            r == silent_too_long(now, self@.last_seen_time, state_delay_ms),
    {
        let silent: u128 = elapsed_ms(now, self.last_seen_time) as u128;
        let period: u128 = if state_delay_ms <= 0 { 0 } else { state_delay_ms as u128 };
        5 * silent > 4 * period
    }

    /// Sends a message to `addr` at the time `now`: the message gets the
    /// next sequence number, and the datagram that carries it is returned
    /// for its first transmission. A message that is to be acknowledged
    /// waits on the list from then on. A message that does not fit into a
    /// datagram is not sent, and the channel stays as it is.
    pub fn send(&mut self, msg: GameMessage, addr: &String, now: u64) -> (d: Option<Datagram>)
        requires
            old(self).wf(),
        ensures
            final(self).wf(),
            d is Some <==> fits(old(self)@.stamped(msg@)),
            d is Some ==> d->0@ == (DatagramView {
                addr: addr@,
                bytes: enc_message(old(self)@.stamped(msg@)),
            }) && final(self)@ == old(self)@.after_send(msg@, addr@, now),
            d is None ==> final(self)@ == old(self)@,
    {
        let mut msg = msg;
        let seq: i64 = self.next_seq;
        msg.msg_seq = seq;
        match encode(&msg) {
            None => None,
            Some(bytes) => {
                let is_ping: bool = match msg.payload {
                    Payload::Ping => true,
                    _ => false,
                };
                if msg.payload.needs_ack() {
                    proof {
                        lemma_acked(self@.pending, seq);
                        lemma_acked_bounded(self@.pending, seq);
                    }
                    self.drop_pending(seq);
                    let ghost before = self@.pending;
                    let p = PendingMsg {
                        seq,
                        msg: copy_bytes(&bytes, 0, bytes.len()),
                        send_time: Some(now),
                        send_count: 1,
                        addr: addr.clone(),
                    };
                    proof {
                        assert(bytes@.subrange(0, bytes.len() as int) =~= bytes@);
                    }
                    let ghost pv = p@;
                    self.pending.push(p);
                    proof {
                        assert(self@.pending =~= before.push(pv));
                        assert forall|i: int, j: int|
                            0 <= i < self@.pending.len() && 0 <= j < self@.pending.len() && i
                                != j implies (#[trigger] self@.pending[i]).seq != (
                        #[trigger] self@.pending[j]).seq by {
                            if i < before.len() {
                                assert(self@.pending[i] == before[i]);
                                assert(waits(before, before[i].seq));
                            }
                            if j < before.len() {
                                assert(self@.pending[j] == before[j]);
                                assert(waits(before, before[j].seq));
                            }
                        }
                        assert forall|i: int| 0 <= i < self@.pending.len() implies (
                        #[trigger] self@.pending[i]).send_count <= MAX_RETRANSMISSIONS by {
                            if i < before.len() {
                                assert(self@.pending[i] == before[i]);
                            }
                        }
                    }
                }
                if is_ping {
                    self.ping_seq = seq;
                }
                self.next_seq = if seq == i64::MAX { i64::MAX } else { seq + 1 };
                Some(Datagram { addr: addr.clone(), bytes })
            },
        }
    }

    /// Retransmits what is due at the time `now`: every pending message
    /// that was never transmitted, or was last transmitted longer ago than
    /// the retransmission delay, is transmitted once more. A message that
    /// has then been transmitted more than five times, which is its fifth
    /// retransmission, is given up. The datagrams to send are returned.
    pub fn tick(&mut self, now: u64, state_delay_ms: i32) -> (out: Vec<Datagram>)
        requires
            old(self).wf(),
        ensures
            final(self).wf(),
            final(self)@ == (ChannelView {
                pending: retained(old(self)@.pending, now, retransmit_delay(state_delay_ms)),
                ..old(self)@
            }),
            datagram_views(out@) == emitted(
                old(self)@.pending,
                now,
                retransmit_delay(state_delay_ms),
            ),
    {
        let delay: u64 = retransmit_delay_ms(state_delay_ms);
        let ghost all = self@.pending;
        let mut kept: Vec<PendingMsg> = Vec::new();
        let mut out: Vec<Datagram> = Vec::new();
        let mut i: usize = 0;
        proof {
            lemma_retained(all, now, delay as nat);
            assert(all.subrange(0, 0) =~= Seq::empty());
            assert(pending_views(kept@) =~= Seq::empty());
            assert(datagram_views(out@) =~= Seq::empty());
        }
        while i < self.pending.len()
            invariant
                i <= self.pending.len(),
                self@ == old(self)@,
                all == old(self)@.pending,
                counts_bounded(all),
                delay == retransmit_delay(state_delay_ms),
                pending_views(kept@) == retained(all.subrange(0, i as int), now, delay as nat),
                datagram_views(out@) == emitted(all.subrange(0, i as int), now, delay as nat),
            decreases self.pending.len() - i,
        {
            let ghost kept_before = pending_views(kept@);
            let ghost out_before = datagram_views(out@);
            proof {
                assert(all.subrange(0, i + 1).drop_last() =~= all.subrange(0, i as int));
                assert(all.subrange(0, i + 1).last() == all[i as int]);
                assert(all[i as int] == self.pending[i as int]@);
            }
            let p = &self.pending[i];
            let due: bool = match p.send_time {
                None => true,
                Some(t) => elapsed_ms(now, t) > delay,
            };
            let mut q = PendingMsg {
                seq: p.seq,
                msg: copy_bytes(&p.msg, 0, p.msg.len()),
                send_time: p.send_time,
                send_count: p.send_count,
                addr: p.addr.clone(),
            };
            proof {
                assert(p.msg@.subrange(0, p.msg.len() as int) =~= p.msg@);
                assert(q@ == all[i as int]);
            }
            if due {
                let d = q.send(now);
                let ghost dv = d@;
                out.push(d);
                proof {
                    assert(datagram_views(out@) =~= out_before.push(dv));
                }
            }
            if q.send_count <= MAX_RETRANSMISSIONS {
                let ghost qv = q@;
                kept.push(q);
                proof {
                    assert(pending_views(kept@) =~= kept_before.push(qv));
                }
            }
            i += 1;
        }
        proof {
            assert(all.subrange(0, i as int) =~= all);
        }
        self.pending = kept;
        out
    }
}

/// Taking messages off a list keeps the transmission counts bounded.
pub proof fn lemma_acked_bounded(pending: Seq<PendingView>, seq: i64)
    requires
        counts_bounded(pending),
    ensures
        counts_bounded(acked(pending, seq)),
{
    lemma_acked(pending, seq);
    let out = acked(pending, seq);
    assert forall|i: int| 0 <= i < out.len() implies (#[trigger] out[i]).send_count
        <= MAX_RETRANSMISSIONS by {
        assert(out.contains(out[i]));
        let k = choose|k: int| 0 <= k < pending.len() && pending[k] == out[i];
        assert(pending[k].send_count <= MAX_RETRANSMISSIONS);
    }
}

} // verus!
