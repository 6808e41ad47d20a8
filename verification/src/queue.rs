//! The network's pending-packet queue: one FIFO lane per directed pair of
//! endpoints. A lane exists only while it is non-empty; it is removed as soon
//! as it drains to empty.

use vstd::prelude::*;

use std::collections::VecDeque;

use crate::Endpoint;
use crate::packet::Packet;

verus! {

/// Packets awaiting delivery from `from` to `to`, oldest first. The two
/// directions of a pair are independent lanes.
pub struct Lane {
    pub from: Endpoint,
    pub to: Endpoint,
    pub packets: VecDeque<Packet>,
}

/// The directed pair a lane carries.
pub open spec fn lane_key(l: Lane) -> (Endpoint, Endpoint) {
    (l.from, l.to)
}

/// No two lanes carry the same directed pair.
pub open spec fn lanes_unique(s: Seq<Lane>) -> bool {
    forall|i: int, j: int|
        0 <= i < j < s.len() ==> #[trigger] lane_key(s[i]) != #[trigger] lane_key(s[j])
}

/// Every lane holds at least one packet.
pub open spec fn lanes_nonempty(s: Seq<Lane>) -> bool {
    forall|i: int| 0 <= i < s.len() ==> #[trigger] s[i].packets@.len() > 0
}

/// The packets pending on the first lane for (a, b), or none.
pub open spec fn lane_seq(s: Seq<Lane>, a: Endpoint, b: Endpoint) -> Seq<Packet>
    decreases s.len(),
{
    if s.len() == 0 {
        Seq::empty()
    } else if s[0].from == a && s[0].to == b {
        s[0].packets@
    } else {
        lane_seq(s.drop_first(), a, b)
    }
}

/// Termination measure of a sequence of pending packets.
pub open spec fn seq_weight(s: Seq<Packet>) -> nat
    decreases s.len(),
{
    if s.len() == 0 {
        0
    } else {
        s[0].weight() + seq_weight(s.drop_first())
    }
}

/// Termination measure of all lanes together.
pub open spec fn lanes_weight(s: Seq<Lane>) -> nat
    decreases s.len(),
{
    if s.len() == 0 {
        0
    } else {
        seq_weight(s[0].packets@) + lanes_weight(s.drop_first())
    }
}

/// The payloads of the message packets of `s`, in order.
pub open spec fn msgs_of(s: Seq<Packet>) -> Seq<Seq<u8>>
    decreases s.len(),
{
    if s.len() == 0 {
        Seq::empty()
    } else {
        match s[0] {
            Packet::Message(data) => seq![data@] + msgs_of(s.drop_first()),
            _ => msgs_of(s.drop_first()),
        }
    }
}

pub proof fn lemma_seq_weight_push(s: Seq<Packet>, p: Packet)
    ensures
        seq_weight(s.push(p)) == seq_weight(s) + p.weight(),
    decreases s.len(),
{
    assert(s.push(p).len() == s.len() + 1);
    if s.len() == 0 {
        assert(s.push(p)[0] == p);
        assert(s.push(p).drop_first() =~= Seq::<Packet>::empty());
        assert(seq_weight(Seq::<Packet>::empty()) == 0);
        assert(seq_weight(s.push(p)) == s.push(p)[0].weight() + seq_weight(
            s.push(p).drop_first(),
        ));
        assert(seq_weight(s) == 0);
    } else {
        assert(s.push(p)[0] == s[0]);
        assert(s.push(p).drop_first() =~= s.drop_first().push(p));
        lemma_seq_weight_push(s.drop_first(), p);
        assert(seq_weight(s.push(p)) == s.push(p)[0].weight() + seq_weight(
            s.push(p).drop_first(),
        ));
        assert(seq_weight(s) == s[0].weight() + seq_weight(s.drop_first()));
    }
}

pub proof fn lemma_msgs_push(s: Seq<Packet>, p: Packet)
    ensures
        msgs_of(s.push(p)) == msgs_of(s) + (match p {
            Packet::Message(data) => seq![data@],
            _ => Seq::<Seq<u8>>::empty(),
        }),
    decreases s.len(),
{
    let tail = (match p {
        Packet::Message(data) => seq![data@],
        _ => Seq::<Seq<u8>>::empty(),
    });
    assert(s.push(p).len() == s.len() + 1);
    if s.len() == 0 {
        assert(s.push(p)[0] == p);
        assert(s.push(p).drop_first() =~= Seq::<Packet>::empty());
        assert(msgs_of(Seq::<Packet>::empty()) == Seq::<Seq<u8>>::empty());
        assert(msgs_of(s) == Seq::<Seq<u8>>::empty());
        match p {
            Packet::Message(data) => {
                assert(msgs_of(s.push(p)) == seq![data@] + msgs_of(s.push(p).drop_first()));
                assert(msgs_of(s.push(p)) =~= msgs_of(s) + tail);
            },
            _ => {
                assert(msgs_of(s.push(p)) == msgs_of(s.push(p).drop_first()));
                assert(msgs_of(s.push(p)) =~= msgs_of(s) + tail);
            },
        }
    } else {
        assert(s.push(p)[0] == s[0]);
        assert(s.push(p).drop_first() =~= s.drop_first().push(p));
        lemma_msgs_push(s.drop_first(), p);
        match s[0] {
            Packet::Message(data) => {
                assert(msgs_of(s.push(p)) == seq![data@] + (msgs_of(s.drop_first()) + tail));
                assert(msgs_of(s) == seq![data@] + msgs_of(s.drop_first()));
                assert(seq![data@] + (msgs_of(s.drop_first()) + tail) =~= (seq![data@] + msgs_of(
                    s.drop_first(),
                )) + tail);
            },
            _ => {
                assert(msgs_of(s.push(p)) == msgs_of(s.drop_first()) + tail);
            },
        }
    }
}

pub proof fn lemma_msgs_head(s: Seq<Packet>)
    requires
        s.len() > 0,
    ensures
        msgs_of(s) == (match s[0] {
            Packet::Message(data) => seq![data@] + msgs_of(s.drop_first()),
            _ => msgs_of(s.drop_first()),
        }),
{
}

pub proof fn lemma_lanes_unique_drop_first(s: Seq<Lane>)
    requires
        s.len() > 0,
        lanes_unique(s),
    ensures
        lanes_unique(s.drop_first()),
{
    assert forall|i: int, j: int|
        0 <= i < j < s.drop_first().len() implies #[trigger] lane_key(s.drop_first()[i])
        != #[trigger] lane_key(s.drop_first()[j]) by {
        assert(s.drop_first()[i] == s[i + 1]);
        assert(s.drop_first()[j] == s[j + 1]);
        assert(lane_key(s[i + 1]) != lane_key(s[j + 1]));
    }
}

/// Updating lane `i` in place (same directed pair) rewrites that pair's
/// packets and no other pair's.
pub proof fn lemma_lane_seq_update(s: Seq<Lane>, i: int, l: Lane)
    requires
        lanes_unique(s),
        0 <= i < s.len(),
        lane_key(l) == lane_key(s[i]),
    ensures
        forall|a: Endpoint, b: Endpoint| #[trigger]
            lane_seq(s.update(i, l), a, b) == if a == l.from && b == l.to {
                l.packets@
            } else {
                lane_seq(s, a, b)
            },
    decreases s.len(),
{
    let s2 = s.update(i, l);
    if i == 0 {
        assert(s2.drop_first() =~= s.drop_first());
        assert forall|a: Endpoint, b: Endpoint| #[trigger]
            lane_seq(s2, a, b) == if a == l.from && b == l.to {
                l.packets@
            } else {
                lane_seq(s, a, b)
            } by {
            if a == l.from && b == l.to {
                assert(lane_seq(s2, a, b) == l.packets@);
            } else {
                assert(lane_seq(s2, a, b) == lane_seq(s2.drop_first(), a, b));
                assert(lane_seq(s, a, b) == lane_seq(s.drop_first(), a, b));
            }
        }
    } else {
        assert(s2.drop_first() =~= s.drop_first().update(i - 1, l));
        lemma_lanes_unique_drop_first(s);
        assert(s.drop_first()[i - 1] == s[i]);
        lemma_lane_seq_update(s.drop_first(), i - 1, l);
        assert(lane_key(s[0]) != lane_key(s[i]));
        assert forall|a: Endpoint, b: Endpoint| #[trigger]
            lane_seq(s2, a, b) == if a == l.from && b == l.to {
                l.packets@
            } else {
                lane_seq(s, a, b)
            } by {
            if s[0].from == a && s[0].to == b {
                assert(!(a == l.from && b == l.to));
                assert(lane_seq(s2, a, b) == s[0].packets@);
            } else {
                assert(lane_seq(s2, a, b) == lane_seq(s2.drop_first(), a, b));
                assert(lane_seq(s, a, b) == lane_seq(s.drop_first(), a, b));
            }
        }
    }
}

/// Removing lane `i` empties that pair and touches no other pair.
pub proof fn lemma_lane_seq_remove(s: Seq<Lane>, i: int)
    requires
        lanes_unique(s),
        0 <= i < s.len(),
    ensures
        forall|a: Endpoint, b: Endpoint| #[trigger]
            lane_seq(s.remove(i), a, b) == if a == s[i].from && b == s[i].to {
                Seq::<Packet>::empty()
            } else {
                lane_seq(s, a, b)
            },
    decreases s.len(),
{
    let s2 = s.remove(i);
    if i == 0 {
        assert(s2 =~= s.drop_first());
        assert forall|a: Endpoint, b: Endpoint| #[trigger]
            lane_seq(s2, a, b) == if a == s[i].from && b == s[i].to {
                Seq::<Packet>::empty()
            } else {
                lane_seq(s, a, b)
            } by {
            if a == s[0].from && b == s[0].to {
                lemma_lane_seq_absent_key(s.drop_first(), a, b, s);
            }
        }
    } else {
        assert(s2.drop_first() =~= s.drop_first().remove(i - 1));
        lemma_lanes_unique_drop_first(s);
        assert(s.drop_first()[i - 1] == s[i]);
        lemma_lane_seq_remove(s.drop_first(), i - 1);
        assert(lane_key(s[0]) != lane_key(s[i]));
        assert forall|a: Endpoint, b: Endpoint| #[trigger]
            lane_seq(s2, a, b) == if a == s[i].from && b == s[i].to {
                Seq::<Packet>::empty()
            } else {
                lane_seq(s, a, b)
            } by {
            assert(s2[0] == s[0]);
            if s[0].from == a && s[0].to == b {
                assert(!(a == s[i].from && b == s[i].to));
                assert(lane_seq(s2, a, b) == s[0].packets@);
            } else {
                assert(lane_seq(s2, a, b) == lane_seq(s2.drop_first(), a, b));
                assert(lane_seq(s, a, b) == lane_seq(s.drop_first(), a, b));
            }
        }
    }
}

/// Helper for the removal lemma: if every lane of `rest` carries a pair other
/// than (a, b) — which uniqueness of `whole` gives for the tail after its
/// head is the (a, b) lane — nothing is pending for (a, b) in `rest`.
proof fn lemma_lane_seq_absent_key(rest: Seq<Lane>, a: Endpoint, b: Endpoint, whole: Seq<Lane>)
    requires
        lanes_unique(whole),
        whole.len() > 0,
        rest =~= whole.drop_first(),
        whole[0].from == a && whole[0].to == b,
    ensures
        lane_seq(rest, a, b) == Seq::<Packet>::empty(),
{
    assert forall|k: int| 0 <= k < rest.len() implies #[trigger] lane_key(rest[k]) != (a, b) by {
        assert(rest[k] == whole[k + 1]);
        assert(lane_key(whole[0]) != lane_key(whole[k + 1]));
        assert(lane_key(whole[0]) == (a, b));
    }
    lemma_lane_seq_absent(rest, a, b);
}

/// If no lane carries (a, b), nothing is pending for (a, b).
pub proof fn lemma_lane_seq_absent(s: Seq<Lane>, a: Endpoint, b: Endpoint)
    requires
        forall|k: int| 0 <= k < s.len() ==> #[trigger] lane_key(s[k]) != (a, b),
    ensures
        lane_seq(s, a, b) == Seq::<Packet>::empty(),
    decreases s.len(),
{
    if s.len() > 0 {
        assert(lane_key(s[0]) != (a, b));
        assert(!(s[0].from == a && s[0].to == b));
        assert forall|k: int| 0 <= k < s.drop_first().len() implies #[trigger] lane_key(
            s.drop_first()[k],
        ) != (a, b) by {
            assert(s.drop_first()[k] == s[k + 1]);
        }
        lemma_lane_seq_absent(s.drop_first(), a, b);
    }
}

/// The lane at index `i` is the one found for its own pair.
pub proof fn lemma_lane_seq_at(s: Seq<Lane>, i: int)
    requires
        lanes_unique(s),
        0 <= i < s.len(),
    ensures
        lane_seq(s, s[i].from, s[i].to) == s[i].packets@,
    decreases s.len(),
{
    if i == 0 {
    } else {
        assert(lane_key(s[0]) != lane_key(s[i]));
        assert(!(s[0].from == s[i].from && s[0].to == s[i].to));
        lemma_lanes_unique_drop_first(s);
        assert(s.drop_first()[i - 1] == s[i]);
        lemma_lane_seq_at(s.drop_first(), i - 1);
    }
}

/// Appending a lane with a fresh pair adds that pair's packets and no other's.
pub proof fn lemma_lane_seq_push_new(s: Seq<Lane>, l: Lane)
    requires
        forall|k: int| 0 <= k < s.len() ==> #[trigger] lane_key(s[k]) != lane_key(l),
    ensures
        forall|a: Endpoint, b: Endpoint| #[trigger]
            lane_seq(s.push(l), a, b) == if a == l.from && b == l.to {
                l.packets@
            } else {
                lane_seq(s, a, b)
            },
    decreases s.len(),
{
    let s2 = s.push(l);
    if s.len() == 0 {
        assert(s2.drop_first() =~= Seq::<Lane>::empty());
        assert forall|a: Endpoint, b: Endpoint| #[trigger]
            lane_seq(s2, a, b) == if a == l.from && b == l.to {
                l.packets@
            } else {
                lane_seq(s, a, b)
            } by {
            if !(a == l.from && b == l.to) {
                assert(lane_seq(s2, a, b) == lane_seq(s2.drop_first(), a, b));
            }
        }
    } else {
        assert(s2.drop_first() =~= s.drop_first().push(l));
        assert forall|k: int| 0 <= k < s.drop_first().len() implies #[trigger] lane_key(
            s.drop_first()[k],
        ) != lane_key(l) by {
            assert(s.drop_first()[k] == s[k + 1]);
        }
        lemma_lane_seq_push_new(s.drop_first(), l);
        assert(lane_key(s[0]) != lane_key(l));
        assert forall|a: Endpoint, b: Endpoint| #[trigger]
            lane_seq(s2, a, b) == if a == l.from && b == l.to {
                l.packets@
            } else {
                lane_seq(s, a, b)
            } by {
            assert(s2[0] == s[0]);
            if s[0].from == a && s[0].to == b {
                assert(!(a == l.from && b == l.to));
            } else {
                assert(lane_seq(s2, a, b) == lane_seq(s2.drop_first(), a, b));
                assert(lane_seq(s, a, b) == lane_seq(s.drop_first(), a, b));
            }
        }
    }
}

pub proof fn lemma_lanes_weight_update(s: Seq<Lane>, i: int, l: Lane)
    requires
        0 <= i < s.len(),
    ensures
        lanes_weight(s.update(i, l)) + seq_weight(s[i].packets@) == lanes_weight(s) + seq_weight(
            l.packets@,
        ),
    decreases s.len(),
{
    if i == 0 {
        assert(s.update(0, l).drop_first() =~= s.drop_first());
    } else {
        assert(s.update(i, l).drop_first() =~= s.drop_first().update(i - 1, l));
        assert(s.drop_first()[i - 1] == s[i]);
        lemma_lanes_weight_update(s.drop_first(), i - 1, l);
        assert(s.update(i, l)[0] == s[0]);
    }
}

pub proof fn lemma_lanes_weight_remove(s: Seq<Lane>, i: int)
    requires
        0 <= i < s.len(),
    ensures
        lanes_weight(s.remove(i)) + seq_weight(s[i].packets@) == lanes_weight(s),
    decreases s.len(),
{
    if i == 0 {
        assert(s.remove(0) =~= s.drop_first());
    } else {
        assert(s.remove(i).drop_first() =~= s.drop_first().remove(i - 1));
        assert(s.drop_first()[i - 1] == s[i]);
        lemma_lanes_weight_remove(s.drop_first(), i - 1);
        assert(s.remove(i)[0] == s[0]);
    }
}

pub proof fn lemma_lanes_weight_push(s: Seq<Lane>, l: Lane)
    ensures
        lanes_weight(s.push(l)) == lanes_weight(s) + seq_weight(l.packets@),
    decreases s.len(),
{
    assert(s.push(l).len() == s.len() + 1);
    if s.len() == 0 {
        assert(s.push(l)[0] == l);
        assert(s.push(l).drop_first() =~= Seq::<Lane>::empty());
        assert(lanes_weight(Seq::<Lane>::empty()) == 0);
        assert(lanes_weight(s.push(l)) == seq_weight(s.push(l)[0].packets@) + lanes_weight(
            s.push(l).drop_first(),
        ));
        assert(lanes_weight(s) == 0);
    } else {
        assert(s.push(l)[0] == s[0]);
        assert(s.push(l).drop_first() =~= s.drop_first().push(l));
        lemma_lanes_weight_push(s.drop_first(), l);
        assert(lanes_weight(s.push(l)) == seq_weight(s.push(l)[0].packets@) + lanes_weight(
            s.push(l).drop_first(),
        ));
        assert(lanes_weight(s) == seq_weight(s[0].packets@) + lanes_weight(s.drop_first()));
    }
}

/// The pending-packet queue of the whole network, plus the "message sent"
/// flag that is raised whenever a packet is enqueued.
pub struct PacketQueue {
    pub lanes: Vec<Lane>,
    pub message_sent: bool,
}

impl PacketQueue {
    /// Packets pending from `a` to `b`, oldest first.
    pub open spec fn q(self, a: Endpoint, b: Endpoint) -> Seq<Packet> {
        lane_seq(self.lanes@, a, b)
    }

    /// Lanes carry distinct pairs and are never empty.
    pub open spec fn wf(self) -> bool {
        lanes_unique(self.lanes@) && lanes_nonempty(self.lanes@)
    }

    /// Termination measure of everything pending.
    pub open spec fn weight(self) -> nat {
        lanes_weight(self.lanes@)
    }

    /// Whether any packet is pending anywhere.
    pub open spec fn has_pending(self) -> bool {
        self.lanes@.len() > 0
    }

    pub fn new() -> (r: PacketQueue)
        ensures
            r.wf(),
            !r.has_pending(),
            !r.message_sent,
            forall|a: Endpoint, b: Endpoint| #[trigger] r.q(a, b) == Seq::<Packet>::empty(),
    {
        PacketQueue { lanes: Vec::new(), message_sent: false }
    }

    /// Index of the lane for (a, b), if one exists.
    fn find_lane(&self, a: Endpoint, b: Endpoint) -> (r: Option<usize>)
        ensures
            match r {
                Some(i) => i < self.lanes@.len() && lane_key(self.lanes@[i as int]) == (a, b),
                None => forall|k: int|
                    0 <= k < self.lanes@.len() ==> #[trigger] lane_key(self.lanes@[k]) != (a, b),
            },
    {
        let mut j: usize = 0;
        while j < self.lanes.len()
            invariant
                j <= self.lanes@.len(),
                forall|k: int| 0 <= k < j ==> #[trigger] lane_key(self.lanes@[k]) != (a, b),
            decreases self.lanes@.len() - j,
        {
            if self.lanes[j].from == a && self.lanes[j].to == b {
                return Some(j);
            }
            j = j + 1;
        }
        None
    }

    /// Enqueue `packet` at the back of the (from, to) lane and raise the
    /// "message sent" flag.
    pub fn send(&mut self, from: Endpoint, to: Endpoint, packet: Packet)
        requires
            old(self).wf(),
        ensures
            final(self).wf(),
            final(self).message_sent,
            final(self).q(from, to) == old(self).q(from, to).push(packet),
            forall|a: Endpoint, b: Endpoint|
                !(a == from && b == to) ==> #[trigger] final(self).q(a, b) == old(self).q(a, b),
            final(self).weight() == old(self).weight() + packet.weight(),
            final(self).has_pending(),
    {
        let ghost pre = self.lanes@;
        match self.find_lane(from, to) {
            Some(i) => {
                proof {
                    lemma_lane_seq_at(pre, i as int);
                }
                let lane = &mut self.lanes[i];
                let ghost pre_lane = *lane;
                lane.packets.push_back(packet);
                proof {
                    let post_lane = self.lanes@[i as int];
                    assert(self.lanes@ =~= pre.update(i as int, post_lane));
                    lemma_lane_seq_update(pre, i as int, post_lane);
                    lemma_lanes_weight_update(pre, i as int, post_lane);
                    lemma_seq_weight_push(pre_lane.packets@, packet);
                    assert forall|x: int, y: int|
                        0 <= x < y < self.lanes@.len() implies #[trigger] lane_key(self.lanes@[x])
                        != #[trigger] lane_key(self.lanes@[y]) by {
                        assert(lane_key(pre[x]) != lane_key(pre[y]));
                    }
                }
            },
            None => {
                let mut d: VecDeque<Packet> = VecDeque::new();
                d.push_back(packet);
                let l = Lane { from, to, packets: d };
                self.lanes.push(l);
                proof {
                    let lg = self.lanes@[pre.len() as int];
                    assert(self.lanes@ =~= pre.push(lg));
                    assert(lg.packets@ =~= Seq::<Packet>::empty().push(packet));
                    lemma_lane_seq_push_new(pre, lg);
                    lemma_lanes_weight_push(pre, lg);
                    lemma_seq_weight_push(Seq::<Packet>::empty(), packet);
                    lemma_lane_seq_absent(pre, from, to);
                    assert(old(self).q(from, to) =~= Seq::<Packet>::empty());
                    assert(self.q(from, to) =~= old(self).q(from, to).push(packet));
                    assert forall|x: int, y: int|
                        0 <= x < y < self.lanes@.len() implies #[trigger] lane_key(self.lanes@[x])
                        != #[trigger] lane_key(self.lanes@[y]) by {
                        if y < pre.len() {
                            assert(lane_key(pre[x]) != lane_key(pre[y]));
                        } else {
                            assert(lane_key(pre[x]) != (from, to));
                        }
                    }
                }
            },
        }
        self.message_sent = true;
    }

    /// Pop the oldest packet of the lane at index `i`; remove the lane if
    /// that empties it.
    pub fn pop_at(&mut self, i: usize) -> (r: (Endpoint, Endpoint, Packet))
        requires
            old(self).wf(),
            i < old(self).lanes@.len(),
        ensures
            final(self).wf(),
            (r.0, r.1) == lane_key(old(self).lanes@[i as int]),
            old(self).q(r.0, r.1).len() > 0,
            r.2 == old(self).q(r.0, r.1)[0],
            final(self).q(r.0, r.1) == old(self).q(r.0, r.1).drop_first(),
            forall|a: Endpoint, b: Endpoint|
                !(a == r.0 && b == r.1) ==> #[trigger] final(self).q(a, b) == old(self).q(a, b),
            final(self).weight() + r.2.weight() == old(self).weight(),
            final(self).message_sent == old(self).message_sent,
    {
        let ghost pre = self.lanes@;
        let from = self.lanes[i].from;
        let to = self.lanes[i].to;
        proof {
            lemma_lane_seq_at(pre, i as int);
        }
        let lane = &mut self.lanes[i];
        let ghost pre_lane = *lane;
        let p = match lane.packets.pop_front() {
            Some(p) => p,
            None => {
                proof {
                    assert(false);
                }
                vstd::pervasive::unreached()
            },
        };
        proof {
            let post_lane = self.lanes@[i as int];
            assert(self.lanes@ =~= pre.update(i as int, post_lane));
            assert(post_lane.packets@ =~= pre_lane.packets@.drop_first());
            lemma_lane_seq_update(pre, i as int, post_lane);
            lemma_lanes_weight_update(pre, i as int, post_lane);
            assert(pre_lane.packets@ =~= post_lane.packets@.insert(0, p));
            assert(seq_weight(pre_lane.packets@) == p.weight() + seq_weight(post_lane.packets@));
            assert forall|x: int, y: int|
                0 <= x < y < self.lanes@.len() implies #[trigger] lane_key(self.lanes@[x])
                != #[trigger] lane_key(self.lanes@[y]) by {
                assert(lane_key(pre[x]) != lane_key(pre[y]));
            }
        }
        if self.lanes[i].packets.len() == 0 {
            let ghost mid = self.lanes@;
            let _ = self.lanes.remove(i);
            proof {
                lemma_lane_seq_remove(mid, i as int);
                lemma_lanes_weight_remove(mid, i as int);
                assert(self.q(from, to) =~= Seq::<Packet>::empty());
                assert(mid[i as int].packets@ =~= Seq::<Packet>::empty());
                assert forall|x: int, y: int|
                    0 <= x < y < self.lanes@.len() implies #[trigger] lane_key(self.lanes@[x])
                    != #[trigger] lane_key(self.lanes@[y]) by {
                    let px: int = if x < i { x } else { x + 1 };
                    let py: int = if y < i { y } else { y + 1 };
                    assert(self.lanes@[x] == mid[px]);
                    assert(self.lanes@[y] == mid[py]);
                    assert(lane_key(mid[px]) != lane_key(mid[py]));
                }
                assert forall|k: int| 0 <= k < self.lanes@.len() implies #[trigger] self.lanes@[k].packets@.len()
                    > 0 by {
                    let pk: int = if k < i { k } else { k + 1 };
                    assert(self.lanes@[k] == mid[pk]);
                }
            }
        }
        (from, to, p)
    }

    /// Drop everything pending from `a` to `b` (one direction only).
    pub fn drop_pending(&mut self, a: Endpoint, b: Endpoint)
        requires
            old(self).wf(),
        ensures
            final(self).wf(),
            final(self).q(a, b) == Seq::<Packet>::empty(),
            forall|x: Endpoint, y: Endpoint|
                !(x == a && y == b) ==> #[trigger] final(self).q(x, y) == old(self).q(x, y),
            final(self).weight() + seq_weight(old(self).q(a, b)) == old(self).weight(),
            final(self).message_sent == old(self).message_sent,
    {
        let ghost pre = self.lanes@;
        match self.find_lane(a, b) {
            Some(i) => {
                proof {
                    lemma_lane_seq_at(pre, i as int);
                }
                let _ = self.lanes.remove(i);
                proof {
                    lemma_lane_seq_remove(pre, i as int);
                    lemma_lanes_weight_remove(pre, i as int);
                    assert forall|x: int, y: int|
                        0 <= x < y < self.lanes@.len() implies #[trigger] lane_key(self.lanes@[x])
                        != #[trigger] lane_key(self.lanes@[y]) by {
                        let px: int = if x < i { x } else { x + 1 };
                        let py: int = if y < i { y } else { y + 1 };
                        assert(self.lanes@[x] == pre[px]);
                        assert(self.lanes@[y] == pre[py]);
                        assert(lane_key(pre[px]) != lane_key(pre[py]));
                    }
                    assert forall|k: int| 0 <= k < self.lanes@.len() implies #[trigger] self.lanes@[k].packets@.len()
                        > 0 by {
                        let pk: int = if k < i { k } else { k + 1 };
                        assert(self.lanes@[k] == pre[pk]);
                    }
                }
            },
            None => {
                proof {
                    lemma_lane_seq_absent(pre, a, b);
                }
            },
        }
    }

    /// Drop all pending packets across the entire network.
    pub fn clear(&mut self)
        ensures
            final(self).wf(),
            !final(self).has_pending(),
            forall|a: Endpoint, b: Endpoint| #[trigger] final(self).q(a, b) == Seq::<
                Packet,
            >::empty(),
            final(self).weight() == 0,
            final(self).message_sent == old(self).message_sent,
    {
        self.lanes.clear();
    }
}

} // verus!
