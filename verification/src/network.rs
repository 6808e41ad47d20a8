//! The shared network: registry of services, endpoint allocator, pending
//! packet queue with its scheduling policy, partition/delay/failure controls,
//! and the drain operation that delivers packets to quiescence.

use vstd::prelude::*;

use crate::Endpoint;
use crate::config::Config;
use crate::packet::{Event, Fault, Packet, Role};
use crate::queue::{lemma_msgs_head, lemma_msgs_push, msgs_of, PacketQueue};
use crate::rng::{rng_from_entropy, rng_from_seed, rng_next_u64, rng_pick};
use crate::service::{
    idx_by_endpoint, lemma_idx_by_endpoint, lemma_step_preserves, lemma_step_reply,
    peer_endpoint_of, step, PrivConnectionInfo, PubConnectionInfo, Service, ServiceView,
};

verus! {

/// Index of the first registered service on the given endpoint.
pub open spec fn svc_idx(s: Seq<Service>, ep: Endpoint) -> Option<int>
    decreases s.len(),
{
    if s.len() == 0 {
        None
    } else if s[0].endpoint == ep {
        Some(0)
    } else {
        match svc_idx(s.drop_first(), ep) {
            Some(i) => Some(i + 1),
            None => None,
        }
    }
}

pub proof fn lemma_svc_idx(s: Seq<Service>, ep: Endpoint)
    ensures
        match svc_idx(s, ep) {
            Some(i) => 0 <= i < s.len() && s[i].endpoint == ep && (forall|j: int|
                0 <= j < i ==> (#[trigger] s[j]).endpoint != ep),
            None => forall|j: int| 0 <= j < s.len() ==> (#[trigger] s[j]).endpoint != ep,
        },
    decreases s.len(),
{
    if s.len() == 0 {
    } else if s[0].endpoint == ep {
        assert(svc_idx(s, ep) == Some(0int));
    } else {
        lemma_svc_idx(s.drop_first(), ep);
        match svc_idx(s.drop_first(), ep) {
            Some(i) => {
                assert(svc_idx(s, ep) == Some(i + 1));
                assert(s.drop_first()[i] == s[i + 1]);
                assert forall|j: int| 0 <= j < i + 1 implies (#[trigger] s[j]).endpoint != ep by {
                    if j > 0 {
                        assert(s.drop_first()[j - 1] == s[j]);
                    }
                }
            },
            None => {
                assert forall|j: int| 0 <= j < s.len() implies (#[trigger] s[j]).endpoint
                    != ep by {
                    if j > 0 {
                        assert(s.drop_first()[j - 1] == s[j]);
                    }
                }
            },
        }
    }
}

/// Replacing the service at index `i` with one on the same endpoint moves no
/// service to another slot.
pub proof fn lemma_svc_idx_update(s: Seq<Service>, i: int, x: Service)
    requires
        0 <= i < s.len(),
        x.endpoint == s[i].endpoint,
    ensures
        forall|e: Endpoint| #[trigger] svc_idx(s.update(i, x), e) == svc_idx(s, e),
    decreases s.len(),
{
    let s2 = s.update(i, x);
    if i == 0 {
        assert(s2.drop_first() =~= s.drop_first());
        assert forall|e: Endpoint| #[trigger] svc_idx(s2, e) == svc_idx(s, e) by {
            assert(s2[0].endpoint == s[0].endpoint);
        }
    } else {
        assert(s2.drop_first() =~= s.drop_first().update(i - 1, x));
        assert(s.drop_first()[i - 1] == s[i]);
        lemma_svc_idx_update(s.drop_first(), i - 1, x);
        assert forall|e: Endpoint| #[trigger] svc_idx(s2, e) == svc_idx(s, e) by {
            assert(s2[0] == s[0]);
            assert(svc_idx(s2.drop_first(), e) == svc_idx(s.drop_first(), e));
        }
    }
}

/// Removing the service at index `i` unregisters its endpoint and leaves
/// every other service registered as before.
pub proof fn lemma_svc_idx_remove(s: Seq<Service>, i: int)
    requires
        0 <= i < s.len(),
        forall|x: int, y: int|
            0 <= x < y < s.len() ==> (#[trigger] s[x]).endpoint != (#[trigger] s[y]).endpoint,
    ensures
        svc_idx(s.remove(i), s[i].endpoint) is None,
        forall|e: Endpoint|
            e != s[i].endpoint ==> ((#[trigger] svc_idx(s.remove(i), e)) is Some == svc_idx(
                s,
                e,
            ) is Some),
        forall|e: Endpoint|
            e != s[i].endpoint && svc_idx(s, e) is Some ==> s.remove(i)[(#[trigger] svc_idx(
                s.remove(i),
                e,
            ))->0] == s[svc_idx(s, e)->0],
{
    let s2 = s.remove(i);
    lemma_svc_idx(s, s[i].endpoint);
    assert forall|k: int| 0 <= k < s2.len() implies (#[trigger] s2[k]).endpoint
        != s[i].endpoint by {
        let pk: int = if k < i {
            k
        } else {
            k + 1
        };
        assert(s2[k] == s[pk]);
        assert(s[pk].endpoint != s[i].endpoint);
    }
    lemma_svc_idx(s2, s[i].endpoint);
    assert forall|e: Endpoint| e != s[i].endpoint implies ((#[trigger] svc_idx(s2, e)) is Some
        == svc_idx(s, e) is Some) && (svc_idx(s, e) is Some ==> s2[svc_idx(s2, e)->0] == s[svc_idx(
        s,
        e,
    )->0]) by {
        lemma_svc_idx(s, e);
        lemma_svc_idx(s2, e);
        match svc_idx(s, e) {
            Some(k) => {
                let k2: int = if k < i {
                    k
                } else {
                    k - 1
                };
                assert(k != i);
                assert(s2[k2] == s[k]);
                match svc_idx(s2, e) {
                    Some(m) => {
                        let pm: int = if m < i {
                            m
                        } else {
                            m + 1
                        };
                        assert(s2[m] == s[pm]);
                        assert(s[pm].endpoint == e);
                        assert(s[k].endpoint == e);
                        assert(pm == k) by {
                            if pm < k {
                                assert(s[pm].endpoint != e);
                            } else if pm > k {
                                assert(s[pm].endpoint != s[k].endpoint);
                            }
                        }
                        assert(s2[m] == s[k]);
                    },
                    None => {
                        assert(s2[k2].endpoint == e);
                        assert(false);
                    },
                }
            },
            None => {
                match svc_idx(s2, e) {
                    Some(m) => {
                        let pm: int = if m < i {
                            m
                        } else {
                            m + 1
                        };
                        assert(s2[m] == s[pm]);
                        assert(s[pm].endpoint != e);
                        assert(false);
                    },
                    None => {},
                }
            },
        }
    }
}

/// Registering a service on a fresh endpoint does not move the others.
pub proof fn lemma_svc_idx_push(s: Seq<Service>, x: Service)
    requires
        forall|k: int| 0 <= k < s.len() ==> (#[trigger] s[k]).endpoint != x.endpoint,
    ensures
        svc_idx(s.push(x), x.endpoint) == Some(s.len() as int),
        forall|e: Endpoint|
            e != x.endpoint ==> (#[trigger] svc_idx(s.push(x), e)) == svc_idx(s, e),
    decreases s.len(),
{
    let s2 = s.push(x);
    assert(s2.len() == s.len() + 1);
    if s.len() == 0 {
        assert(s2[0] == x);
        assert(s2.drop_first() =~= Seq::<Service>::empty());
        assert(svc_idx(s2, x.endpoint) == Some(0int));
        assert forall|e: Endpoint| e != x.endpoint implies (#[trigger] svc_idx(s2, e)) == svc_idx(
            s,
            e,
        ) by {
            assert(svc_idx(s2.drop_first(), e) is None);
        }
    } else {
        assert(s2[0] == s[0]);
        assert(s2.drop_first() =~= s.drop_first().push(x));
        assert forall|k: int| 0 <= k < s.drop_first().len() implies (#[trigger] s.drop_first()[k]).endpoint
            != x.endpoint by {
            assert(s.drop_first()[k] == s[k + 1]);
        }
        lemma_svc_idx_push(s.drop_first(), x);
        assert(s[0].endpoint != x.endpoint);
        assert(svc_idx(s2, x.endpoint) == Some(s.drop_first().len() + 1int));
        assert forall|e: Endpoint| e != x.endpoint implies (#[trigger] svc_idx(s2, e)) == svc_idx(
            s,
            e,
        ) by {
            assert(svc_idx(s2.drop_first(), e) == svc_idx(s.drop_first(), e));
        }
    }
}

/// A distinct sequence stays distinct when one element is removed.
pub proof fn lemma_remove_keeps_distinct<T>(s: Seq<T>, at: int)
    requires
        0 <= at < s.len(),
        forall|i: int, j: int| 0 <= i < j < s.len() ==> #[trigger] s[i] != #[trigger] s[j],
    ensures
        forall|i: int, j: int|
            0 <= i < j < s.remove(at).len() ==> #[trigger] s.remove(at)[i] != #[trigger] s.remove(
                at,
            )[j],
{
    let s2 = s.remove(at);
    assert forall|i: int, j: int| 0 <= i < j < s2.len() implies #[trigger] s2[i]
        != #[trigger] s2[j] by {
        let pi: int = if i < at {
            i
        } else {
            i + 1
        };
        let pj: int = if j < at {
            j
        } else {
            j + 1
        };
        assert(s2[i] == s[pi]);
        assert(s2[j] == s[pj]);
        assert(s[pi] != s[pj]);
    }
}

/// What a pushed element does to membership.
proof fn lemma_contains_push<T>(s: Seq<T>, x: T)
    ensures
        forall|y: T| #[trigger] s.push(x).contains(y) == (s.contains(y) || y == x),
{
    assert forall|y: T| #[trigger] s.push(x).contains(y) == (s.contains(y) || y == x) by {
        if s.contains(y) {
            let w = choose|w: int| 0 <= w < s.len() && s[w] == y;
            assert(s.push(x)[w] == y);
            assert(s.push(x).contains(y));
        }
        if y == x {
            assert(s.push(x)[s.len() as int] == y);
            assert(s.push(x).contains(y));
        }
        if s.push(x).contains(y) {
            let w = choose|w: int| 0 <= w < s.push(x).len() && s.push(x)[w] == y;
            if w < s.len() {
                assert(s[w] == y);
            } else {
                assert(y == x);
            }
        }
    }
}

/// Whether the pair set holds (a, b).
fn contains_pair(v: &Vec<(Endpoint, Endpoint)>, a: Endpoint, b: Endpoint) -> (r: bool)
    ensures
        r == v@.contains((a, b)),
{
    let mut j: usize = 0;
    while j < v.len()
        invariant
            j <= v@.len(),
            forall|k: int| 0 <= k < j ==> #[trigger] v@[k] != (a, b),
        decreases v@.len() - j,
    {
        if v[j].0 == a && v[j].1 == b {
            assert(v@[j as int] == (a, b));
            return true;
        }
        j = j + 1;
    }
    false
}

/// Mock network: the shared registry and queue every simulated service hangs
/// off. Create one per test and register services against it.
pub struct Network {
    pub services: Vec<Service>,
    pub min_section_size: usize,
    pub next_endpoint: usize,
    pub queue: PacketQueue,
    pub blocked: Vec<(Endpoint, Endpoint)>,
    pub delayed: Vec<(Endpoint, Endpoint)>,
    pub rng: rand::rngs::StdRng,
    /// History of delivered message payloads, per directed pair: the crate's
    /// record of the order in which opaque messages reached their target.
    pub delivered: Ghost<Map<(Endpoint, Endpoint), Seq<Seq<u8>>>>,
}

impl Network {
    /// Whether a service is registered on `ep`.
    pub open spec fn has_service(self, ep: Endpoint) -> bool {
        svc_idx(self.services@, ep) is Some
    }

    /// The state of the service registered on `ep`.
    pub open spec fn service(self, ep: Endpoint) -> ServiceView {
        self.services@[svc_idx(self.services@, ep)->0]@
    }

    /// Message payloads delivered from `a` to `b` so far, oldest first.
    pub open spec fn log(self, a: Endpoint, b: Endpoint) -> Seq<Seq<u8>> {
        if self.delivered@.contains_key((a, b)) {
            self.delivered@[(a, b)]
        } else {
            Seq::empty()
        }
    }

    pub open spec fn is_blocked(self, a: Endpoint, b: Endpoint) -> bool {
        self.blocked@.contains((a, b))
    }

    pub open spec fn is_delayed(self, a: Endpoint, b: Endpoint) -> bool {
        self.delayed@.contains((a, b))
    }

    /// Every registered service has a started session.
    pub open spec fn all_sessions_started(self) -> bool {
        forall|e: Endpoint| self.has_service(e) ==> (#[trigger] self.service(e)).uid is Some
    }

    /// No opaque message packet is pending anywhere.
    pub open spec fn no_messages_pending(self) -> bool {
        forall|a: Endpoint, b: Endpoint| #[trigger] msgs_of(self.queue.q(a, b)) == Seq::<
            Seq<u8>,
        >::empty()
    }

    /// Every directed pair with pending work is marked delayed.
    pub open spec fn all_pending_delayed(self) -> bool {
        forall|i: int|
            0 <= i < self.queue.lanes@.len() ==> self.is_delayed(
                (#[trigger] self.queue.lanes@[i]).from,
                self.queue.lanes@[i].to,
            )
    }

    /// Well-formedness: the queue's lanes are unique and non-empty, services
    /// sit on distinct endpoints and are each well-formed, and the block and
    /// delay sets hold no duplicates.
    pub open spec fn wf(self) -> bool {
        &&& self.queue.wf()
        &&& (forall|i: int, j: int|
            0 <= i < j < self.services@.len() ==> (#[trigger] self.services@[i]).endpoint != (
            #[trigger] self.services@[j]).endpoint)
        &&& (forall|i: int|
            0 <= i < self.services@.len() ==> (#[trigger] self.services@[i])@.wf())
        &&& (forall|i: int, j: int|
            0 <= i < j < self.blocked@.len() ==> #[trigger] self.blocked@[i]
                != #[trigger] self.blocked@[j])
        &&& (forall|i: int, j: int|
            0 <= i < j < self.delayed@.len() ==> #[trigger] self.delayed@[i]
                != #[trigger] self.delayed@[j])
    }

    /// Everything but the registry is as before.
    pub open spec fn same_controls(pre: Network, post: Network) -> bool {
        &&& post.blocked == pre.blocked
        &&& post.delayed == pre.delayed
        &&& post.next_endpoint == pre.next_endpoint
        &&& post.min_section_size == pre.min_section_size
    }

    /// The same endpoints are registered as before.
    pub open spec fn same_registry(pre: Network, post: Network) -> bool {
        forall|e: Endpoint| #[trigger] post.has_service(e) == pre.has_service(e)
    }

    /// Every registered service but the one on `ep` is as before.
    pub open spec fn services_unchanged_except(pre: Network, post: Network, ep: Endpoint) -> bool {
        forall|e: Endpoint|
            e != ep && pre.has_service(e) ==> #[trigger] post.service(e) == pre.service(e)
    }

    /// The whole delivery log is as before.
    pub open spec fn same_log(pre: Network, post: Network) -> bool {
        post.delivered == pre.delivered
    }

    /// Create a new mock network: empty registry, zeroed allocator, empty
    /// queue and block/delay sets; a given seed makes the scheduling
    /// sequence reproducible across runs.
    pub fn new(min_section_size: usize, optional_seed: Option<u64>) -> (r: Network)
        ensures
            r.wf(),
            r.services@ == Seq::<Service>::empty(),
            forall|e: Endpoint| !(#[trigger] r.has_service(e)),
            r.min_section_size == min_section_size,
            r.next_endpoint == 0,
            !r.queue.has_pending(),
            !r.queue.message_sent,
            forall|a: Endpoint, b: Endpoint| #[trigger] r.queue.q(a, b) == Seq::<Packet>::empty(),
            forall|a: Endpoint, b: Endpoint| !(#[trigger] r.is_blocked(a, b)),
            forall|a: Endpoint, b: Endpoint| !(#[trigger] r.is_delayed(a, b)),
            forall|a: Endpoint, b: Endpoint| #[trigger] r.log(a, b) == Seq::<Seq<u8>>::empty(),
    {
        let rng = match optional_seed {
            Some(seed) => rng_from_seed(seed),
            None => rng_from_entropy(),
        };
        let r = Network {
            services: Vec::new(),
            min_section_size,
            next_endpoint: 0,
            queue: PacketQueue::new(),
            blocked: Vec::new(),
            delayed: Vec::new(),
            rng,
            delivered: Ghost(Map::empty()),
        };
        r
    }

    /// Get the minimum section size the network was created with.
    pub fn min_section_size(&self) -> (r: usize)
        ensures
            r == self.min_section_size,
    {
        self.min_section_size
    }

    /// Generate a unique endpoint: a caller-specified one is honored and the
    /// allocator advances past it; an omitted one gets the next free value.
    pub fn gen_endpoint(&mut self, opt_endpoint: Option<Endpoint>) -> (r: Endpoint)
        requires
            old(self).next_endpoint < usize::MAX,
            (opt_endpoint matches Some(e) ==> e.0 < usize::MAX),
        ensures
            r == (match opt_endpoint {
                Some(e) => e,
                None => Endpoint(old(self).next_endpoint),
            }),
            final(self).next_endpoint == (if r.0 + 1 > old(self).next_endpoint {
                r.0 + 1
            } else {
                old(self).next_endpoint as int
            }),
            *final(self) == (Network { next_endpoint: final(self).next_endpoint, ..*old(self) }),
    {
        let endpoint = match opt_endpoint {
            Some(e) => e,
            None => Endpoint(self.next_endpoint),
        };
        if endpoint.0 + 1 > self.next_endpoint {
            self.next_endpoint = endpoint.0 + 1;
        }
        endpoint
    }

    /// Index of the service registered on `ep`.
    fn find_service_index(&self, ep: Endpoint) -> (r: Option<usize>)
        ensures
            match r {
                Some(i) => svc_idx(self.services@, ep) == Some(i as int),
                None => svc_idx(self.services@, ep) is None,
            },
    {
        proof {
            lemma_svc_idx(self.services@, ep);
        }
        let mut j: usize = 0;
        while j < self.services.len()
            invariant
                j <= self.services@.len(),
                forall|k: int| 0 <= k < j ==> (#[trigger] self.services@[k]).endpoint != ep,
            decreases self.services@.len() - j,
        {
            if self.services[j].endpoint == ep {
                proof {
                    lemma_svc_idx(self.services@, ep);
                    assert(self.services@[j as int].endpoint == ep);
                }
                return Some(j);
            }
            j = j + 1;
        }
        None
    }

    /// Register a new service: allocate (or honor) its endpoint, construct
    /// the service bound to it, and store it. A colliding explicit endpoint
    /// overwrites the stored service — not fatal. Returns the endpoint, the
    /// handle through which the service is addressed from then on.
    pub fn new_service_handle(
        &mut self,
        opt_config: Option<Config>,
        opt_endpoint: Option<Endpoint>,
    ) -> (r: Endpoint)
        requires
            old(self).wf(),
            old(self).next_endpoint < usize::MAX,
            (opt_endpoint matches Some(e) ==> e.0 < usize::MAX),
        ensures
            final(self).wf(),
            r == (match opt_endpoint {
                Some(e) => e,
                None => Endpoint(old(self).next_endpoint),
            }),
            final(self).has_service(r),
            final(self).service(r) == (ServiceView {
                endpoint: r,
                uid: None,
                listening: false,
                pending_bootstraps: 0,
                contacts: (match opt_config {
                    Some(c) => c.hard_coded_contacts@,
                    None => Seq::empty(),
                }),
                connections: Seq::empty(),
                whitelist: Seq::empty(),
                events: Seq::empty(),
            }),
            forall|e: Endpoint| e != r ==> #[trigger] final(self).has_service(e) == old(
                self,
            ).has_service(e),
            Self::services_unchanged_except(*old(self), *final(self), r),
            final(self).queue == old(self).queue,
            final(self).blocked == old(self).blocked,
            final(self).delayed == old(self).delayed,
            final(self).min_section_size == old(self).min_section_size,
            Self::same_log(*old(self), *final(self)),
    {
        let config = match opt_config {
            Some(c) => c,
            None => Config::new(),
        };
        let endpoint = self.gen_endpoint(opt_endpoint);
        let svc = Service::new(config, endpoint);
        let ghost pre = self.services@;
        match self.find_service_index(endpoint) {
            Some(i) => {
                proof {
                    lemma_svc_idx(pre, endpoint);
                    lemma_svc_idx_remove(pre, i as int);
                }
                let _ = self.services.remove(i);
                let ghost mid = self.services@;
                proof {
                    lemma_remove_keeps_distinct_endpoints(pre, i as int);
                    assert forall|k: int| 0 <= k < mid.len() implies (#[trigger] mid[k]).endpoint
                        != endpoint by {
                        lemma_svc_idx(mid, endpoint);
                    }
                    lemma_svc_idx_push(mid, svc);
                }
                self.services.push(svc);
                proof {
                    lemma_new_handle_post(pre, mid, self.services@, i as int, svc, endpoint);
                    assert forall|e: Endpoint|
                        e != endpoint && old(self).has_service(e) implies #[trigger] self.service(
                        e,
                    ) == old(self).service(e) by {
                        assert(self.services@[svc_idx(self.services@, e)->0] == pre[svc_idx(
                            pre,
                            e,
                        )->0]);
                    }
                }
            },
            None => {
                proof {
                    lemma_svc_idx(pre, endpoint);
                    assert forall|k: int| 0 <= k < pre.len() implies (#[trigger] pre[k]).endpoint
                        != endpoint by {}
                    lemma_svc_idx_push(pre, svc);
                }
                self.services.push(svc);
                proof {
                    assert forall|x: int, y: int|
                        0 <= x < y < self.services@.len() implies (
                    #[trigger] self.services@[x]).endpoint != (
                    #[trigger] self.services@[y]).endpoint by {
                        if y < pre.len() {
                            assert(pre[x].endpoint != pre[y].endpoint);
                        } else {
                            assert(self.services@[y] == svc);
                            assert(pre[x].endpoint != endpoint);
                        }
                    }
                    assert forall|k: int|
                        0 <= k < self.services@.len() implies (
                    #[trigger] self.services@[k])@.wf() by {
                        if k < pre.len() {
                            assert(pre[k]@.wf());
                        }
                    }
                    assert forall|e: Endpoint|
                        e != endpoint && old(self).has_service(e) implies #[trigger] self.service(
                        e,
                    ) == old(self).service(e) by {
                        lemma_svc_idx(pre, e);
                        assert(svc_idx(self.services@, e) == svc_idx(pre, e));
                        assert(self.services@[svc_idx(pre, e)->0] == pre[svc_idx(pre, e)->0]);
                    }
                }
            },
        }
        endpoint
    }

    /// Causes request-class packets from `sender` to `receiver` to fail.
    pub fn block_connection(&mut self, sender: Endpoint, receiver: Endpoint)
        requires
            old(self).wf(),
        ensures
            final(self).wf(),
            forall|a: Endpoint, b: Endpoint| #[trigger]
                final(self).is_blocked(a, b) == (old(self).is_blocked(a, b) || (a == sender && b
                    == receiver)),
            *final(self) == (Network { blocked: final(self).blocked, ..*old(self) }),
    {
        if !contains_pair(&self.blocked, sender, receiver) {
            let ghost pre = self.blocked@;
            self.blocked.push((sender, receiver));
            proof {
                assert forall|x: int, y: int|
                    0 <= x < y < self.blocked@.len() implies #[trigger] self.blocked@[x]
                    != #[trigger] self.blocked@[y] by {
                    if y < pre.len() {
                        assert(pre[x] != pre[y]);
                    } else {
                        assert(self.blocked@[y] == (sender, receiver));
                        assert(!pre.contains((sender, receiver)));
                    }
                }
                lemma_contains_push(pre, (sender, receiver));
            }
        }
    }

    /// Make request-class packets from `sender` to `receiver` succeed again.
    pub fn unblock_connection(&mut self, sender: Endpoint, receiver: Endpoint)
        requires
            old(self).wf(),
        ensures
            final(self).wf(),
            forall|a: Endpoint, b: Endpoint| #[trigger]
                final(self).is_blocked(a, b) == (old(self).is_blocked(a, b) && !(a == sender && b
                    == receiver)),
            *final(self) == (Network { blocked: final(self).blocked, ..*old(self) }),
    {
        let ghost pre = self.blocked@;
        let mut j: usize = 0;
        while j < self.blocked.len()
            invariant
                j <= self.blocked@.len(),
                self.blocked@ == pre,
                *self == *old(self),
                old(self).wf(),
                forall|k: int| 0 <= k < j ==> #[trigger] pre[k] != (sender, receiver),
            decreases self.blocked@.len() - j,
        {
            if self.blocked[j].0 == sender && self.blocked[j].1 == receiver {
                proof {
                    assert(pre[j as int] == (sender, receiver));
                }
                let _ = self.blocked.remove(j);
                proof {
                    lemma_remove_keeps_distinct(pre, j as int);
                    assert forall|a: Endpoint, b: Endpoint| #[trigger]
                        self.blocked@.contains((a, b)) == (pre.contains((a, b)) && !(a == sender
                            && b == receiver)) by {
                        let s2 = pre.remove(j as int);
                        if pre.contains((a, b)) && !(a == sender && b == receiver) {
                            let w = choose|w: int| 0 <= w < pre.len() && pre[w] == (a, b);
                            let w2: int = if w < j {
                                w
                            } else {
                                w - 1
                            };
                            assert(w != j);
                            assert(s2[w2] == pre[w]);
                            assert(s2.contains((a, b)));
                        }
                        if s2.contains((a, b)) {
                            let w = choose|w: int| 0 <= w < s2.len() && s2[w] == (a, b);
                            let pw: int = if w < j {
                                w
                            } else {
                                w + 1
                            };
                            assert(s2[w] == pre[pw]);
                            assert(pre.contains((a, b)));
                            if a == sender && b == receiver {
                                assert(pre[pw] == pre[j as int]);
                                assert(pw != j);
                                assert(false);
                            }
                        }
                    }
                }
                return ;
            }
            j = j + 1;
        }
        proof {
            assert(!pre.contains((sender, receiver)));
        }
    }

    /// Deprioritize packets from `sender` to `receiver`: the pair is served
    /// only when no non-delayed pair has pending work. There is no reversal;
    /// a delayed pair stays delayed for the life of the network.
    pub fn delay_connection(&mut self, sender: Endpoint, receiver: Endpoint)
        requires
            old(self).wf(),
        ensures
            final(self).wf(),
            forall|a: Endpoint, b: Endpoint| #[trigger]
                final(self).is_delayed(a, b) == (old(self).is_delayed(a, b) || (a == sender && b
                    == receiver)),
            *final(self) == (Network { delayed: final(self).delayed, ..*old(self) }),
    {
        if !contains_pair(&self.delayed, sender, receiver) {
            let ghost pre = self.delayed@;
            self.delayed.push((sender, receiver));
            proof {
                assert forall|x: int, y: int|
                    0 <= x < y < self.delayed@.len() implies #[trigger] self.delayed@[x]
                    != #[trigger] self.delayed@[y] by {
                    if y < pre.len() {
                        assert(pre[x] != pre[y]);
                    } else {
                        assert(self.delayed@[y] == (sender, receiver));
                        assert(!pre.contains((sender, receiver)));
                    }
                }
                lemma_contains_push(pre, (sender, receiver));
            }
        }
    }

    /// Return whether any packet was enqueued since the previous query, and
    /// reset the flag.
    pub fn reset_message_sent(&mut self) -> (r: bool)
        ensures
            r == old(self).queue.message_sent,
            final(self).queue.message_sent == false,
            final(self).queue.lanes == old(self).queue.lanes,
            *final(self) == (Network { queue: final(self).queue, ..*old(self) }),
    {
        let r = self.queue.message_sent;
        self.queue.message_sent = false;
        r
    }

    /// Construct a fresh seeded pseudo-random source from randomness drawn
    /// from this network's own source, for deterministic sub-tests.
    pub fn new_rng(&mut self) -> (r: rand::rngs::StdRng)
        ensures
            *final(self) == (Network { rng: final(self).rng, ..*old(self) }),
    {
        let seed = rng_next_u64(&mut self.rng);
        rng_from_seed(seed)
    }

    /// Controls, delivery log, and the scheduling source as before.
    pub open spec fn frame_rest(pre: Network, post: Network) -> bool {
        &&& Self::same_controls(pre, post)
        &&& Self::same_log(pre, post)
        &&& post.rng == pre.rng
    }

    /// As `frame_rest`, and the queue untouched too.
    pub open spec fn frame_rest_and_queue(pre: Network, post: Network) -> bool {
        &&& Self::frame_rest(pre, post)
        &&& post.queue == pre.queue
    }

    /// The index the registered service on `node` sits at; the registration
    /// is a precondition, so the lookup cannot fail.
    fn service_index(&self, node: Endpoint) -> (r: usize)
        requires
            self.has_service(node),
        ensures
            svc_idx(self.services@, node) == Some(r as int),
            r < self.services@.len(),
            self.services@[r as int].endpoint == node,
            self.service(node) == self.services@[r as int]@,
    {
        proof {
            lemma_svc_idx(self.services@, node);
        }
        match self.find_service_index(node) {
            Some(i) => i,
            None => {
                proof {
                    assert(false);
                }
                vstd::pervasive::unreached()
            },
        }
    }

    /// Start the session of the service on `node`: assign identity and sink.
    pub fn start(&mut self, node: Endpoint, uid: u64)
        requires
            old(self).wf(),
            old(self).has_service(node),
        ensures
            final(self).wf(),
            final(self).service(node) == (ServiceView { uid: Some(uid), ..old(self).service(node) }),
            Self::same_registry(*old(self), *final(self)),
            Self::services_unchanged_except(*old(self), *final(self), node),
            Self::frame_rest_and_queue(*old(self), *final(self)),
    {
        let i = self.service_index(node);
        let ghost pre = *self;
        let svc = &mut self.services[i];
        svc.start(uid);
        proof {
            assert(self.services@ =~= pre.services@.update(i as int, self.services@[i as int]));
            lemma_forward_frame(pre, *self, i as int, node);
        }
    }

    /// Restart the service on `node`: disconnect every current peer (the
    /// entire pending queue is cleared as a side effect, then one disconnect
    /// notice per former peer goes out), reset the listening flag, and start
    /// with the new identity. No events are emitted.
    pub fn restart(&mut self, node: Endpoint, uid: u64)
        requires
            old(self).wf(),
            old(self).has_service(node),
        ensures
            final(self).wf(),
            final(self).service(node) == (ServiceView {
                uid: Some(uid),
                listening: false,
                connections: Seq::empty(),
                ..old(self).service(node)
            }),
            Self::same_registry(*old(self), *final(self)),
            Self::services_unchanged_except(*old(self), *final(self), node),
            Self::frame_rest(*old(self), *final(self)),
            forall|b: Endpoint| #[trigger] final(self).queue.q(node, b) == crate::service::repeat_disconnect(
                crate::service::count_ep(
                    crate::service::conn_eps(old(self).service(node).connections),
                    b,
                ),
            ),
            forall|a: Endpoint, b: Endpoint|
                a != node ==> #[trigger] final(self).queue.q(a, b) == Seq::<Packet>::empty(),
    {
        let i = self.service_index(node);
        let ghost pre = *self;
        let svc = &mut self.services[i];
        svc.restart(&mut self.queue, uid);
        proof {
            assert(self.services@ =~= pre.services@.update(i as int, self.services@[i as int]));
            lemma_forward_frame(pre, *self, i as int, node);
        }
    }

    /// Bootstrap the service on `node` against its eligible hard-coded
    /// contacts; with none, "bootstrap failed" is delivered at once and
    /// nothing is sent.
    pub fn start_bootstrap(&mut self, node: Endpoint, blacklist: &Vec<u16>, role: Role)
        requires
            old(self).wf(),
            old(self).has_service(node),
            old(self).service(node).uid is Some,
        ensures
            final(self).wf(),
            Self::same_registry(*old(self), *final(self)),
            Self::services_unchanged_except(*old(self), *final(self), node),
            Self::frame_rest(*old(self), *final(self)),
            ({
                let pre_s = old(self).service(node);
                let eligible = crate::service::eligible_contacts(pre_s.contacts, node, blacklist@);
                &&& final(self).service(node) == (ServiceView {
                    pending_bootstraps: eligible.len() as u64,
                    events: if eligible.len() == 0 {
                        pre_s.events.push(Event::BootstrapFailed)
                    } else {
                        pre_s.events
                    },
                    ..pre_s
                })
                &&& forall|b: Endpoint| #[trigger] final(self).queue.q(node, b) == old(
                    self,
                ).queue.q(node, b) + crate::service::repeat_bootstrap_request(
                    crate::service::count_ep(eligible, b),
                    pre_s.uid->0,
                    role,
                )
                &&& forall|a: Endpoint, b: Endpoint|
                    a != node ==> #[trigger] final(self).queue.q(a, b) == old(self).queue.q(a, b)
                &&& (eligible.len() == 0 ==> final(self).queue == old(self).queue)
            }),
    {
        let i = self.service_index(node);
        let ghost pre = *self;
        let svc = &mut self.services[i];
        svc.start_bootstrap(&mut self.queue, blacklist, role);
        proof {
            assert(self.services@ =~= pre.services@.update(i as int, self.services@[i as int]));
            lemma_forward_frame(pre, *self, i as int, node);
        }
    }

    /// Send an opaque message from the service on `node` to the peer with
    /// the given identity; reports failure, enqueuing nothing, if that
    /// identity is not connected.
    pub fn send_message(&mut self, node: Endpoint, uid: u64, data: Vec<u8>) -> (r: bool)
        requires
            old(self).wf(),
            old(self).has_service(node),
        ensures
            final(self).wf(),
            Self::same_registry(*old(self), *final(self)),
            Self::services_unchanged_except(*old(self), *final(self), node),
            final(self).service(node) == old(self).service(node),
            Self::frame_rest(*old(self), *final(self)),
            r == (peer_endpoint_of(old(self).service(node).connections, uid) is Some),
            (match peer_endpoint_of(old(self).service(node).connections, uid) {
                Some(ep) => {
                    &&& final(self).queue.q(node, ep) == old(self).queue.q(node, ep).push(
                        Packet::Message(data),
                    )
                    &&& forall|a: Endpoint, b: Endpoint|
                        !(a == node && b == ep) ==> #[trigger] final(self).queue.q(a, b) == old(
                            self,
                        ).queue.q(a, b)
                    &&& final(self).queue.message_sent
                },
                None => final(self).queue == old(self).queue,
            }),
    {
        let i = self.service_index(node);
        let r = self.services[i].send_message(&mut self.queue, uid, data);
        r
    }

    /// Whether the service on `node` has an active connection entry for the
    /// identity.
    pub fn is_peer_connected(&self, node: Endpoint, uid: u64) -> (r: bool)
        requires
            self.wf(),
            self.has_service(node),
        ensures
            r == (peer_endpoint_of(self.service(node).connections, uid) is Some),
    {
        let i = self.service_index(node);
        self.services[i].is_peer_connected(uid)
    }

    /// Idempotently whitelist an endpoint at the service on `node`.
    pub fn whitelist_peer(&mut self, node: Endpoint, peer: Endpoint)
        requires
            old(self).wf(),
            old(self).has_service(node),
        ensures
            final(self).wf(),
            final(self).service(node) == (ServiceView {
                whitelist: if old(self).service(node).whitelist.contains(peer) {
                    old(self).service(node).whitelist
                } else {
                    old(self).service(node).whitelist.push(peer)
                },
                ..old(self).service(node)
            }),
            Self::same_registry(*old(self), *final(self)),
            Self::services_unchanged_except(*old(self), *final(self), node),
            Self::frame_rest_and_queue(*old(self), *final(self)),
    {
        let i = self.service_index(node);
        let ghost pre = *self;
        let svc = &mut self.services[i];
        svc.whitelist_peer(peer);
        proof {
            assert(self.services@ =~= pre.services@.update(i as int, self.services@[i as int]));
            lemma_forward_frame(pre, *self, i as int, node);
        }
    }

    /// Whether the peer is authorized at the service on `node`: its
    /// whitelist is empty, or the peer is connected and whitelisted.
    pub fn is_peer_whitelisted(&self, node: Endpoint, uid: u64) -> (r: bool)
        requires
            self.wf(),
            self.has_service(node),
        ensures
            r == self.service(node).is_whitelisted(uid),
    {
        let i = self.service_index(node);
        self.services[i].is_peer_whitelisted(uid)
    }

    /// Deliver "connection info ready" at the service on `node`, carrying its
    /// own identity and endpoint tagged with the token: the asynchronous
    /// real-transport operation modeled as an immediate success.
    pub fn prepare_connection_info(&mut self, node: Endpoint, result_token: u32)
        requires
            old(self).wf(),
            old(self).has_service(node),
            old(self).service(node).uid is Some,
        ensures
            final(self).wf(),
            final(self).service(node) == (ServiceView {
                events: old(self).service(node).events.push(
                    Event::ConnectionInfoPrepared(
                        result_token,
                        old(self).service(node).uid->0,
                        node,
                    ),
                ),
                ..old(self).service(node)
            }),
            Self::same_registry(*old(self), *final(self)),
            Self::services_unchanged_except(*old(self), *final(self), node),
            Self::frame_rest_and_queue(*old(self), *final(self)),
    {
        let i = self.service_index(node);
        let ghost pre = *self;
        let svc = &mut self.services[i];
        svc.prepare_connection_info(result_token);
        proof {
            assert(self.services@ =~= pre.services@.update(i as int, self.services@[i as int]));
            lemma_forward_frame(pre, *self, i as int, node);
        }
    }

    /// Enqueue a connect request from the service on `node` to the peer
    /// described by `their_info`.
    pub fn connect(
        &mut self,
        node: Endpoint,
        our_info: PrivConnectionInfo,
        their_info: PubConnectionInfo,
    )
        requires
            old(self).wf(),
            old(self).has_service(node),
            old(self).service(node).uid is Some,
        ensures
            final(self).wf(),
            Self::same_registry(*old(self), *final(self)),
            Self::services_unchanged_except(*old(self), *final(self), node),
            final(self).service(node) == old(self).service(node),
            Self::frame_rest(*old(self), *final(self)),
            final(self).queue.q(node, their_info.endpoint) == old(self).queue.q(
                node,
                their_info.endpoint,
            ).push(Packet::ConnectRequest(old(self).service(node).uid->0, their_info.id)),
            forall|a: Endpoint, b: Endpoint|
                !(a == node && b == their_info.endpoint) ==> #[trigger] final(self).queue.q(a, b)
                    == old(self).queue.q(a, b),
            final(self).queue.message_sent,
    {
        let i = self.service_index(node);
        self.services[i].connect(&mut self.queue, our_info, their_info);
    }

    /// Open the listener of the service on `node` and deliver "listener
    /// started" with the port.
    pub fn start_listening_tcp(&mut self, node: Endpoint, port: u16)
        requires
            old(self).wf(),
            old(self).has_service(node),
            old(self).service(node).uid is Some,
        ensures
            final(self).wf(),
            final(self).service(node) == (ServiceView {
                listening: true,
                events: old(self).service(node).events.push(Event::ListenerStarted(port)),
                ..old(self).service(node)
            }),
            Self::same_registry(*old(self), *final(self)),
            Self::services_unchanged_except(*old(self), *final(self), node),
            Self::frame_rest_and_queue(*old(self), *final(self)),
    {
        let i = self.service_index(node);
        let ghost pre = *self;
        let svc = &mut self.services[i];
        svc.start_listening_tcp(port);
        proof {
            assert(self.services@ =~= pre.services@.update(i as int, self.services@[i as int]));
            lemma_forward_frame(pre, *self, i as int, node);
        }
    }

    /// Disconnect the service on `node` from the peer with the given
    /// identity: remove the local entry, clear in-flight packets in both
    /// directions, then send a disconnect notice. The initiator gets no
    /// event. Reports whether a connection existed.
    pub fn disconnect(&mut self, node: Endpoint, uid: u64) -> (r: bool)
        requires
            old(self).wf(),
            old(self).has_service(node),
        ensures
            final(self).wf(),
            Self::same_registry(*old(self), *final(self)),
            Self::services_unchanged_except(*old(self), *final(self), node),
            Self::frame_rest(*old(self), *final(self)),
            r == (crate::service::idx_by_uid(old(self).service(node).connections, uid) is Some),
            (match crate::service::idx_by_uid(old(self).service(node).connections, uid) {
                Some(k) => {
                    let ep = old(self).service(node).connections[k].1;
                    &&& final(self).service(node) == (ServiceView {
                        connections: old(self).service(node).connections.remove(k),
                        ..old(self).service(node)
                    })
                    &&& final(self).queue.q(node, ep) == seq![Packet::Disconnect]
                    &&& (ep != node ==> final(self).queue.q(ep, node) == Seq::<Packet>::empty())
                    &&& forall|a: Endpoint, b: Endpoint|
                        !((a == node && b == ep) || (a == ep && b == node))
                            ==> #[trigger] final(self).queue.q(a, b) == old(self).queue.q(a, b)
                },
                None => final(self).service(node) == old(self).service(node) && final(self).queue
                    == old(self).queue,
            }),
    {
        let i = self.service_index(node);
        let ghost pre = *self;
        let svc = &mut self.services[i];
        let r = svc.disconnect(&mut self.queue, uid);
        proof {
            match crate::service::idx_by_uid(pre.services@[i as int]@.connections, uid) {
                Some(k) => {
                    crate::service::lemma_idx_by_uid(pre.services@[i as int]@.connections, uid);
                    crate::service::lemma_wf_remove_conn(
                        pre.services@[i as int]@,
                        self.services@[i as int]@,
                        k,
                    );
                },
                None => {},
            }
            assert(self.services@ =~= pre.services@.update(i as int, self.services@[i as int]));
            lemma_forward_frame(pre, *self, i as int, node);
        }
        r
    }

    /// Teardown of the service on `node`: clear the entire network's pending
    /// queue, then send a disconnect notice to each of its peers and drop
    /// its connection entries. The service stays registered.
    pub fn disconnect_all(&mut self, node: Endpoint)
        requires
            old(self).wf(),
            old(self).has_service(node),
        ensures
            final(self).wf(),
            final(self).service(node) == (ServiceView {
                connections: Seq::empty(),
                ..old(self).service(node)
            }),
            Self::same_registry(*old(self), *final(self)),
            Self::services_unchanged_except(*old(self), *final(self), node),
            Self::frame_rest(*old(self), *final(self)),
            forall|b: Endpoint| #[trigger] final(self).queue.q(node, b) == crate::service::repeat_disconnect(
                crate::service::count_ep(
                    crate::service::conn_eps(old(self).service(node).connections),
                    b,
                ),
            ),
            forall|a: Endpoint, b: Endpoint|
                a != node ==> #[trigger] final(self).queue.q(a, b) == Seq::<Packet>::empty(),
    {
        let i = self.service_index(node);
        let ghost pre = *self;
        let svc = &mut self.services[i];
        svc.disconnect_all(&mut self.queue);
        proof {
            assert(self.services@ =~= pre.services@.update(i as int, self.services@[i as int]));
            lemma_forward_frame(pre, *self, i as int, node);
        }
    }

    /// Release the service on `node`: tear down its connectivity as
    /// `disconnect_all` does, then unregister it, as if its owner dropped
    /// it. Packets addressed to the endpoint afterwards are treated as sent
    /// to a vanished host.
    pub fn remove_service(&mut self, node: Endpoint)
        requires
            old(self).wf(),
            old(self).has_service(node),
        ensures
            final(self).wf(),
            !final(self).has_service(node),
            forall|e: Endpoint|
                e != node ==> #[trigger] final(self).has_service(e) == old(self).has_service(e),
            Self::services_unchanged_except(*old(self), *final(self), node),
            Self::frame_rest(*old(self), *final(self)),
            forall|b: Endpoint| #[trigger] final(self).queue.q(node, b) == crate::service::repeat_disconnect(
                crate::service::count_ep(
                    crate::service::conn_eps(old(self).service(node).connections),
                    b,
                ),
            ),
            forall|a: Endpoint, b: Endpoint|
                a != node ==> #[trigger] final(self).queue.q(a, b) == Seq::<Packet>::empty(),
    {
        let i = self.service_index(node);
        let ghost pre = *self;
        let svc = &mut self.services[i];
        svc.disconnect_all(&mut self.queue);
        proof {
            assert(self.services@ =~= pre.services@.update(i as int, self.services@[i as int]));
            lemma_forward_frame(pre, *self, i as int, node);
        }
        let ghost mid = self.services@;
        proof {
            lemma_svc_idx_update(pre.services@, i as int, mid[i as int]);
        }
        let _ = self.services.remove(i);
        proof {
            lemma_svc_idx_remove(mid, i as int);
            lemma_remove_keeps_distinct_endpoints(mid, i as int);
            assert forall|k: int|
                0 <= k < self.services@.len() implies (#[trigger] self.services@[k])@.wf() by {
                let pk: int = if k < i {
                    k
                } else {
                    k + 1
                };
                assert(self.services@[k] == mid[pk]);
            }
            assert forall|e: Endpoint|
                e != node implies #[trigger] self.has_service(e) == old(self).has_service(e) by {
                assert(svc_idx(mid, e) == svc_idx(pre.services@, e));
            }
            assert forall|e: Endpoint|
                e != node && old(self).has_service(e) implies #[trigger] self.service(e) == old(
                self,
            ).service(e) by {
                assert(svc_idx(mid, e) == svc_idx(pre.services@, e));
                lemma_svc_idx(pre.services@, e);
                let k = svc_idx(pre.services@, e)->0;
                assert(pre.services@[k].endpoint == e);
                assert(k != i);
                assert(mid[k] == pre.services@[k]);
                assert(self.services@[svc_idx(self.services@, e)->0] == mid[svc_idx(mid, e)->0]);
            }
        }
    }

    /// Take the events delivered so far to the owner of the service on
    /// `node`, oldest first, leaving its feed empty.
    pub fn take_events(&mut self, node: Endpoint) -> (r: Vec<Event>)
        requires
            old(self).wf(),
            old(self).has_service(node),
        ensures
            final(self).wf(),
            r@ == old(self).service(node).events,
            final(self).service(node) == (ServiceView {
                events: Seq::empty(),
                ..old(self).service(node)
            }),
            Self::same_registry(*old(self), *final(self)),
            Self::services_unchanged_except(*old(self), *final(self), node),
            Self::frame_rest_and_queue(*old(self), *final(self)),
    {
        let i = self.service_index(node);
        let ghost pre = *self;
        let svc = &mut self.services[i];
        let r = svc.take_events();
        proof {
            assert(self.services@ =~= pre.services@.update(i as int, self.services@[i as int]));
            lemma_forward_frame(pre, *self, i as int, node);
        }
        r
    }

    /// How many active connection entries the service on `node` holds.
    pub fn connection_count(&self, node: Endpoint) -> (r: usize)
        requires
            self.wf(),
            self.has_service(node),
        ensures
            r == self.service(node).connections.len(),
    {
        let i = self.service_index(node);
        self.services[i].connections.len()
    }

    /// Whether the service on `a` is connected to the one on `b`, going by
    /// `b`'s current identity.
    pub fn is_connected(&self, a: Endpoint, b: Endpoint) -> (r: bool)
        requires
            self.wf(),
            self.has_service(a),
            self.has_service(b),
            self.service(b).uid is Some,
        ensures
            r == (peer_endpoint_of(self.service(a).connections, self.service(b).uid->0) is Some),
    {
        let ib = self.service_index(b);
        let uid_b = self.services[ib].uid.unwrap();
        let ia = self.service_index(a);
        self.services[ia].is_peer_connected(uid_b)
    }

    /// Inject an event directly into the sink of the service on `node`,
    /// bypassing the packet protocol entirely.
    pub fn send_crust_event(&mut self, node: Endpoint, crust_event: Event)
        requires
            old(self).wf(),
            old(self).has_service(node),
            old(self).service(node).uid is Some,
        ensures
            final(self).wf(),
            final(self).service(node) == (ServiceView {
                events: old(self).service(node).events.push(crust_event),
                ..old(self).service(node)
            }),
            Self::same_registry(*old(self), *final(self)),
            Self::services_unchanged_except(*old(self), *final(self), node),
            Self::frame_rest_and_queue(*old(self), *final(self)),
    {
        let i = self.service_index(node);
        let ghost pre = *self;
        let svc = &mut self.services[i];
        svc.send_event(crust_event);
        proof {
            assert(self.services@ =~= pre.services@.update(i as int, self.services@[i as int]));
            lemma_forward_frame(pre, *self, i as int, node);
        }
    }

    /// Simulate the loss of a connection between `node_1` and `node_2`,
    /// bypassing any queued packets. If `node_1` has no recorded connection
    /// to `node_2`, nothing happens at all — asymmetric state is tolerated
    /// and not reconciled. Otherwise the entry is removed on both sides
    /// where present and each owner gets a "peer lost" event.
    pub fn lost_connection(&mut self, node_1: Endpoint, node_2: Endpoint)
        requires
            old(self).wf(),
            old(self).has_service(node_1),
            node_1 != node_2,
            (idx_by_endpoint(old(self).service(node_1).connections, node_2) is Some ==> old(
                self,
            ).has_service(node_2) && old(self).service(node_2).uid is Some),
        ensures
            final(self).wf(),
            Self::same_registry(*old(self), *final(self)),
            Self::same_controls(*old(self), *final(self)),
            Self::same_log(*old(self), *final(self)),
            final(self).queue == old(self).queue,
            (match idx_by_endpoint(old(self).service(node_1).connections, node_2) {
                Some(k) => {
                    &&& final(self).service(node_1) == (ServiceView {
                        connections: old(self).service(node_1).connections.remove(k),
                        events: old(self).service(node_1).events.push(
                            Event::LostPeer(old(self).service(node_2).uid->0),
                        ),
                        ..old(self).service(node_1)
                    })
                    &&& final(self).service(node_2) == (ServiceView {
                        connections: (match idx_by_endpoint(
                            old(self).service(node_2).connections,
                            node_1,
                        ) {
                            Some(m) => old(self).service(node_2).connections.remove(m),
                            None => old(self).service(node_2).connections,
                        }),
                        events: old(self).service(node_2).events.push(
                            Event::LostPeer(old(self).service(node_1).uid->0),
                        ),
                        ..old(self).service(node_2)
                    })
                    &&& forall|e: Endpoint|
                        e != node_1 && e != node_2 && old(self).has_service(e)
                            ==> #[trigger] final(self).service(e) == old(self).service(e)
                },
                None => final(self).service(node_1) == old(self).service(node_1)
                    && Self::services_unchanged_except(*old(self), *final(self), node_1),
            }),
    {
        let i1 = self.service_index(node_1);
        let ghost pre = *self;
        let svc1 = &mut self.services[i1];
        let removed = svc1.remove_connection_by_endpoint(node_2);
        proof {
            match idx_by_endpoint(pre.services@[i1 as int]@.connections, node_2) {
                Some(k) => {
                    lemma_idx_by_endpoint(pre.services@[i1 as int]@.connections, node_2);
                    crate::service::lemma_wf_remove_conn(
                        pre.services@[i1 as int]@,
                        self.services@[i1 as int]@,
                        k,
                    );
                },
                None => {},
            }
            assert(self.services@ =~= pre.services@.update(i1 as int, self.services@[i1 as int]));
            lemma_forward_frame(pre, *self, i1 as int, node_1);
        }
        match removed {
            None => {
                proof {
                    assert(self.services@ =~= pre.services@);
                }
            },
            Some(_entry_uid) => {
                proof {
                    lemma_idx_by_endpoint(pre.service(node_1).connections, node_2);
                }
                let ghost s1 = *self;
                let i2 = self.service_index(node_2);
                let svc2 = &mut self.services[i2];
                let _ = svc2.remove_connection_by_endpoint(node_1);
                proof {
                    match idx_by_endpoint(s1.services@[i2 as int]@.connections, node_1) {
                        Some(k) => {
                            lemma_idx_by_endpoint(s1.services@[i2 as int]@.connections, node_1);
                            crate::service::lemma_wf_remove_conn(
                                s1.services@[i2 as int]@,
                                self.services@[i2 as int]@,
                                k,
                            );
                        },
                        None => {},
                    }
                    assert(self.services@ =~= s1.services@.update(
                        i2 as int,
                        self.services@[i2 as int],
                    ));
                    lemma_forward_frame(s1, *self, i2 as int, node_2);
                }
                let ghost s2 = *self;
                let u1 = self.services[i1].uid.unwrap();
                let u2 = self.services[i2].uid.unwrap();
                let svc2b = &mut self.services[i2];
                svc2b.send_event(Event::LostPeer(u1));
                proof {
                    assert(self.services@ =~= s2.services@.update(
                        i2 as int,
                        self.services@[i2 as int],
                    ));
                    lemma_forward_frame(s2, *self, i2 as int, node_2);
                }
                let ghost s3 = *self;
                let svc1b = &mut self.services[i1];
                svc1b.send_event(Event::LostPeer(u2));
                proof {
                    assert(self.services@ =~= s3.services@.update(
                        i1 as int,
                        self.services@[i1 as int],
                    ));
                    lemma_forward_frame(s3, *self, i1 as int, node_1);
                    assert(self.service(node_1) =~= (ServiceView {
                        connections: pre.service(node_1).connections.remove(
                            idx_by_endpoint(pre.service(node_1).connections, node_2)->0,
                        ),
                        events: pre.service(node_1).events.push(
                            Event::LostPeer(pre.service(node_2).uid->0),
                        ),
                        ..pre.service(node_1)
                    }));
                }
            },
        }
    }

    /// One packet still to deliver moves either from the queue to the log
    /// (a delivered message), or out of the message projection entirely (a
    /// handshake packet): per directed pair, log plus queued messages is
    /// conserved across delivery, for destinations that exist.
    pub open spec fn drain_log_inv(orig: Network, cur: Network, a: Endpoint, b: Endpoint) -> bool {
        if orig.has_service(b) {
            cur.log(a, b) + msgs_of(cur.queue.q(a, b)) == orig.log(a, b) + msgs_of(
                orig.queue.q(a, b),
            )
        } else {
            cur.log(a, b) == orig.log(a, b)
        }
    }

    /// Pop one pending packet according to the selection policy: among the
    /// pairs with pending work, the non-delayed ones are eligible, or all of
    /// them if every such pair is delayed — a fully delayed network still
    /// makes progress. One eligible pair is chosen by the seeded source and
    /// the front of its FIFO comes off.
    pub fn pop_packet(&mut self) -> (r: Option<(Endpoint, Endpoint, Packet)>)
        requires
            old(self).wf(),
        ensures
            final(self).wf(),
            final(self).services == old(self).services,
            Self::same_controls(*old(self), *final(self)),
            Self::same_log(*old(self), *final(self)),
            (match r {
                None => !old(self).queue.has_pending() && final(self).queue == old(self).queue,
                Some(t) => {
                    &&& old(self).queue.q(t.0, t.1).len() > 0
                    &&& t.2 == old(self).queue.q(t.0, t.1)[0]
                    &&& final(self).queue.q(t.0, t.1) == old(self).queue.q(t.0, t.1).drop_first()
                    &&& forall|x: Endpoint, y: Endpoint|
                        !(x == t.0 && y == t.1) ==> #[trigger] final(self).queue.q(x, y) == old(
                            self,
                        ).queue.q(x, y)
                    &&& final(self).queue.weight() + t.2.weight() == old(self).queue.weight()
                    &&& final(self).queue.message_sent == old(self).queue.message_sent
                    &&& (!old(self).all_pending_delayed() ==> !old(self).is_delayed(t.0, t.1))
                },
            }),
    {
        let n = self.queue.lanes.len();
        if n == 0 {
            return None;
        }
        let ghost pre = *self;
        let mut eligible: Vec<usize> = Vec::new();
        let mut i: usize = 0;
        while i < self.queue.lanes.len()
            invariant
                *self == *old(self),
                old(self).wf(),
                i <= self.queue.lanes@.len(),
                forall|k: int|
                    0 <= k < eligible@.len() ==> (#[trigger] eligible@[k]) < i,
                forall|k: int|
                    0 <= k < eligible@.len() ==> !self.is_delayed(
                        self.queue.lanes@[(#[trigger] eligible@[k]) as int].from,
                        self.queue.lanes@[eligible@[k] as int].to,
                    ),
                eligible@.len() == 0 ==> forall|j: int|
                    0 <= j < i ==> self.is_delayed(
                        (#[trigger] self.queue.lanes@[j]).from,
                        self.queue.lanes@[j].to,
                    ),
            decreases self.queue.lanes@.len() - i,
        {
            let lf = self.queue.lanes[i].from;
            let lt = self.queue.lanes[i].to;
            if !contains_pair(&self.delayed, lf, lt) {
                let ghost epre = eligible@;
                eligible.push(i);
                proof {
                    assert forall|k: int|
                        0 <= k < eligible@.len() implies (#[trigger] eligible@[k]) < i + 1 by {
                        if k < epre.len() {
                            assert(eligible@[k] == epre[k]);
                        } else {
                            assert(eligible@[k] == i);
                        }
                    }
                    assert forall|k: int|
                        0 <= k < eligible@.len() implies !self.is_delayed(
                        self.queue.lanes@[(#[trigger] eligible@[k]) as int].from,
                        self.queue.lanes@[eligible@[k] as int].to,
                    ) by {
                        if k < epre.len() {
                            assert(eligible@[k] == epre[k]);
                        } else {
                            assert(eligible@[k] == i);
                        }
                    }
                }
            }
            i = i + 1;
        }
        let chosen: usize;
        if eligible.len() == 0 {
            proof {
                assert(pre.all_pending_delayed());
            }
            let m = self.queue.lanes.len();
            chosen = rng_pick(&mut self.rng, m);
        } else {
            let m = eligible.len();
            let k = rng_pick(&mut self.rng, m);
            chosen = eligible[k];
        }
        let t = self.queue.pop_at(chosen);
        Some(t)
    }

    /// Deliver one popped packet. On a blocked pair a request-class packet is
    /// not delivered: its failure counterpart goes on the reverse direction
    /// instead; packets without a counterpart pass even on a blocked pair.
    /// To a vanished destination a request draws the failure counterpart in
    /// reverse and anything else is dropped silently. Otherwise the
    /// destination service processes the packet as `step` says, and its
    /// reply, if any, is enqueued back to the origin.
    pub fn process_packet(&mut self, o: Endpoint, d: Endpoint, p: Packet) -> (r: Result<(), Fault>)
        requires
            old(self).wf(),
        ensures
            final(self).wf(),
            Self::same_registry(*old(self), *final(self)),
            Self::same_controls(*old(self), *final(self)),
            final(self).rng == old(self).rng,
            final(self).queue.weight() + 1 <= old(self).queue.weight() + p.weight(),
            forall|a: Endpoint, b: Endpoint| #[trigger] msgs_of(final(self).queue.q(a, b))
                == msgs_of(old(self).queue.q(a, b)),
            (r is Ok && p is Message && old(self).has_service(d) ==> final(self).log(o, d) == old(
                self,
            ).log(o, d).push(p.payload()) && (forall|x: Endpoint, y: Endpoint|
                !(x == o && y == d) ==> #[trigger] final(self).log(x, y) == old(self).log(x, y))),
            (!(r is Ok && p is Message && old(self).has_service(d)) ==> forall|
                x: Endpoint,
                y: Endpoint,
            |
                #[trigger] final(self).log(x, y) == old(self).log(x, y)),
            (old(self).is_blocked(o, d) && p.spec_to_failure() is Some ==> ({
                &&& r is Ok
                &&& final(self).queue.q(d, o) == old(self).queue.q(d, o).push(
                    p.spec_to_failure()->0,
                )
                &&& forall|a: Endpoint, b: Endpoint|
                    !(a == d && b == o) ==> #[trigger] final(self).queue.q(a, b) == old(
                        self,
                    ).queue.q(a, b)
                &&& forall|e: Endpoint|
                    old(self).has_service(e) ==> #[trigger] final(self).service(e) == old(
                        self,
                    ).service(e)
            })),
            (!(old(self).is_blocked(o, d) && p.spec_to_failure() is Some) && !old(
                self,
            ).has_service(d) ==> ({
                &&& r is Ok
                &&& forall|e: Endpoint|
                    old(self).has_service(e) ==> #[trigger] final(self).service(e) == old(
                        self,
                    ).service(e)
                &&& (match p.spec_to_failure() {
                    Some(f) => final(self).queue.q(d, o) == old(self).queue.q(d, o).push(f) && (
                    forall|a: Endpoint, b: Endpoint|
                        !(a == d && b == o) ==> #[trigger] final(self).queue.q(a, b) == old(
                            self,
                        ).queue.q(a, b)),
                    None => forall|a: Endpoint, b: Endpoint| #[trigger]
                        final(self).queue.q(a, b) == old(self).queue.q(a, b),
                })
            })),
            (!(old(self).is_blocked(o, d) && p.spec_to_failure() is Some) && old(
                self,
            ).has_service(d) ==> ({
                &&& final(self).service(d) == step(old(self).service(d), o, p).0
                &&& Self::services_unchanged_except(*old(self), *final(self), d)
                &&& (match step(old(self).service(d), o, p).1 {
                    Ok(Some(rp)) => r is Ok && final(self).queue.q(d, o) == old(self).queue.q(
                        d,
                        o,
                    ).push(rp) && (forall|a: Endpoint, b: Endpoint|
                        !(a == d && b == o) ==> #[trigger] final(self).queue.q(a, b) == old(
                            self,
                        ).queue.q(a, b)),
                    Ok(None) => r is Ok && (forall|a: Endpoint, b: Endpoint| #[trigger]
                        final(self).queue.q(a, b) == old(self).queue.q(a, b)),
                    Err(f) => r == Result::<(), Fault>::Err(f) && (forall|
                        a: Endpoint,
                        b: Endpoint,
                    | #[trigger] final(self).queue.q(a, b) == old(self).queue.q(a, b)),
                })
            })),
    {
        let ghost pre = *self;
        let blocked = contains_pair(&self.blocked, o, d);
        if blocked {
            match p.to_failure() {
                Some(f) => {
                    self.queue.send(d, o, f);
                    proof {
                        lemma_msgs_push(pre.queue.q(d, o), f);
                        assert forall|a: Endpoint, b: Endpoint| #[trigger] msgs_of(
                            self.queue.q(a, b),
                        ) == msgs_of(pre.queue.q(a, b)) by {
                            if a == d && b == o {
                                assert(msgs_of(pre.queue.q(d, o)) + Seq::<Seq<u8>>::empty()
                                    =~= msgs_of(pre.queue.q(d, o)));
                            }
                        }
                    }
                    return Ok(());
                },
                None => {},
            }
        }
        match self.find_service_index(d) {
            None => {
                match p.to_failure() {
                    Some(f) => {
                        self.queue.send(d, o, f);
                        proof {
                            lemma_msgs_push(pre.queue.q(d, o), f);
                            assert forall|a: Endpoint, b: Endpoint| #[trigger] msgs_of(
                                self.queue.q(a, b),
                            ) == msgs_of(pre.queue.q(a, b)) by {
                                if a == d && b == o {
                                    assert(msgs_of(pre.queue.q(d, o)) + Seq::<Seq<u8>>::empty()
                                        =~= msgs_of(pre.queue.q(d, o)));
                                }
                            }
                        }
                    },
                    None => {},
                }
                Ok(())
            },
            Some(i) => {
                proof {
                    lemma_svc_idx(pre.services@, d);
                }
                let ghost sv_pre = self.services@[i as int]@;
                let ghost gp = p;
                let svc = &mut self.services[i];
                let res = svc.receive_packet(o, p);
                proof {
                    lemma_step_preserves(sv_pre, o, gp);
                    lemma_step_reply(sv_pre, o, gp);
                    assert(self.services@ =~= pre.services@.update(
                        i as int,
                        self.services@[i as int],
                    ));
                    lemma_forward_frame(pre, *self, i as int, d);
                }
                match res {
                    Ok(Some(rp)) => {
                        let ghost grp = rp;
                        let ghost mid = *self;
                        self.queue.send(d, o, rp);
                        proof {
                            lemma_same_services_bridge(mid, *self);
                            assert forall|e: Endpoint| #[trigger] self.has_service(e) == pre.has_service(
                                e,
                            ) by {
                                assert(mid.has_service(e) == pre.has_service(e));
                                assert(self.has_service(e) == mid.has_service(e));
                            }
                            assert forall|e: Endpoint|
                                e != d && pre.has_service(e) implies #[trigger] self.service(e)
                                == pre.service(e) by {
                                assert(mid.service(e) == pre.service(e));
                                assert(self.service(e) == mid.service(e));
                            }
                            assert(self.service(d) == mid.service(d));
                            lemma_same_log_bridge(pre, *self);
                            lemma_msgs_push(pre.queue.q(d, o), grp);
                            assert forall|a: Endpoint, b: Endpoint| #[trigger] msgs_of(
                                self.queue.q(a, b),
                            ) == msgs_of(pre.queue.q(a, b)) by {
                                if a == d && b == o {
                                    assert(msgs_of(pre.queue.q(d, o)) + Seq::<Seq<u8>>::empty()
                                        =~= msgs_of(pre.queue.q(d, o)));
                                }
                            }
                        }
                        Ok(())
                    },
                    Ok(None) => {
                        let ghost mid = *self;
                        self.delivered = Ghost(
                            if gp is Message {
                                self.delivered@.insert((o, d), pre.log(o, d).push(gp.payload()))
                            } else {
                                self.delivered@
                            },
                        );
                        proof {
                            lemma_same_services_bridge(mid, *self);
                            assert forall|e: Endpoint| #[trigger] self.has_service(e) == pre.has_service(
                                e,
                            ) by {
                                assert(mid.has_service(e) == pre.has_service(e));
                                assert(self.has_service(e) == mid.has_service(e));
                            }
                            assert forall|e: Endpoint|
                                e != d && pre.has_service(e) implies #[trigger] self.service(e)
                                == pre.service(e) by {
                                assert(mid.service(e) == pre.service(e));
                                assert(self.service(e) == mid.service(e));
                            }
                            assert(self.service(d) == mid.service(d));
                            assert(self.queue == pre.queue);
                            if gp is Message {
                                assert(self.log(o, d) == pre.log(o, d).push(gp.payload()));
                                assert forall|x: Endpoint, y: Endpoint|
                                    !(x == o && y == d) implies #[trigger] self.log(x, y)
                                    == pre.log(x, y) by {}
                            } else {
                                assert forall|x: Endpoint, y: Endpoint| #[trigger] self.log(x, y)
                                    == pre.log(x, y) by {}
                            }
                        }
                        Ok(())
                    },
                    Err(f) => {
                        proof {
                            lemma_same_log_bridge(pre, *self);
                        }
                        Err(f)
                    },
                }
            },
        }
    }

    /// Drain: repeatedly pick one pending packet by the selection policy and
    /// deliver it, until no packet remains anywhere in the network — a true
    /// fixed point, counting packets produced while delivering earlier ones.
    /// Termination is proved by a measure that every delivery strictly
    /// shrinks, whatever the delay marks say. Within each directed pair,
    /// messages reach their destination in the order they were enqueued,
    /// whatever the interleaving with other pairs: see the delivery-log
    /// clause. The drain stops early only on an unrecoverable fault.
    pub fn poll(&mut self) -> (r: Result<(), Fault>)
        requires
            old(self).wf(),
        ensures
            final(self).wf(),
            Self::same_registry(*old(self), *final(self)),
            Self::same_controls(*old(self), *final(self)),
            r is Ok ==> !final(self).queue.has_pending(),
            r is Ok ==> forall|a: Endpoint, b: Endpoint| #[trigger] final(self).queue.q(a, b)
                == Seq::<Packet>::empty(),
            r is Ok ==> forall|a: Endpoint, b: Endpoint| #[trigger] final(self).log(a, b) == (if
            old(self).has_service(b) {
                old(self).log(a, b) + msgs_of(old(self).queue.q(a, b))
            } else {
                old(self).log(a, b)
            }),
            old(self).all_sessions_started() && old(self).no_messages_pending() ==> r is Ok,
    {
        loop
            invariant
                self.wf(),
                Self::same_registry(*old(self), *self),
                Self::same_controls(*old(self), *self),
                old(self).all_sessions_started() ==> self.all_sessions_started(),
                old(self).no_messages_pending() ==> self.no_messages_pending(),
                forall|a: Endpoint, b: Endpoint| #[trigger] Self::drain_log_inv(
                    *old(self),
                    *self,
                    a,
                    b,
                ),
            decreases self.queue.weight(),
        {
            let ghost s0 = *self;
            match self.pop_packet() {
                None => {
                    proof {
                        lemma_same_log_bridge(s0, *self);
                        lemma_same_services_bridge(s0, *self);
                        assert forall|e: Endpoint| #[trigger] self.has_service(e) == old(
                            self,
                        ).has_service(e) by {
                            assert(self.has_service(e) == s0.has_service(e));
                            assert(s0.has_service(e) == old(self).has_service(e));
                        }
                        assert(self.queue.lanes@.len() == 0);
                        assert forall|a: Endpoint, b: Endpoint| #[trigger] self.queue.q(a, b)
                            == Seq::<Packet>::empty() by {}
                        assert forall|a: Endpoint, b: Endpoint| #[trigger] self.log(a, b) == (if
                        old(self).has_service(b) {
                            old(self).log(a, b) + msgs_of(old(self).queue.q(a, b))
                        } else {
                            old(self).log(a, b)
                        }) by {
                            assert(Self::drain_log_inv(*old(self), s0, a, b));
                            assert(self.log(a, b) == s0.log(a, b));
                            assert(self.queue.q(a, b) == s0.queue.q(a, b));
                            if old(self).has_service(b) {
                                assert(msgs_of(self.queue.q(a, b)) == Seq::<Seq<u8>>::empty());
                                assert(s0.log(a, b) + Seq::<Seq<u8>>::empty() =~= s0.log(a, b));
                            }
                        }
                    }
                    return Ok(());
                },
                Some(t) => {
                    let (o, d, p) = t;
                    let ghost s1 = *self;
                    let ghost gp = p;
                    match self.process_packet(o, d, p) {
                        Ok(()) => {
                            proof {
                                lemma_same_services_bridge(s0, s1);
                                lemma_same_log_bridge(s0, s1);
                                lemma_msgs_head(s0.queue.q(o, d));
                                assert forall|e: Endpoint| #[trigger] self.has_service(e) == old(
                                    self,
                                ).has_service(e) by {
                                    assert(s1.has_service(e) == s0.has_service(e));
                                    assert(self.has_service(e) == s1.has_service(e));
                                    assert(s0.has_service(e) == old(self).has_service(e));
                                }
                                assert forall|a: Endpoint, b: Endpoint| #[trigger] Self::drain_log_inv(
                                    *old(self),
                                    *self,
                                    a,
                                    b,
                                ) by {
                                    assert(Self::drain_log_inv(*old(self), s0, a, b));
                                    assert(s1.log(a, b) == s0.log(a, b));
                                    assert(msgs_of(self.queue.q(a, b)) == msgs_of(
                                        s1.queue.q(a, b),
                                    ));
                                    if a == o && b == d {
                                        if gp is Message {
                                            assert(msgs_of(s0.queue.q(o, d)) == seq![gp.payload()]
                                                + msgs_of(s1.queue.q(o, d)));
                                            if s1.has_service(d) {
                                                assert(self.log(o, d) == s1.log(o, d).push(
                                                    gp.payload(),
                                                ));
                                                assert(s1.log(o, d).push(gp.payload()) + msgs_of(
                                                    s1.queue.q(o, d),
                                                ) =~= s1.log(o, d) + (seq![gp.payload()] + msgs_of(
                                                    s1.queue.q(o, d),
                                                )));
                                                assert(old(self).has_service(d) == s1.has_service(
                                                    d,
                                                ));
                                            } else {
                                                assert(self.log(a, b) == s1.log(a, b));
                                                assert(!old(self).has_service(b));
                                            }
                                        } else {
                                            assert(msgs_of(s0.queue.q(o, d)) == msgs_of(
                                                s1.queue.q(o, d),
                                            ));
                                            assert(self.log(a, b) == s1.log(a, b));
                                        }
                                    } else {
                                        assert(s1.queue.q(a, b) == s0.queue.q(a, b));
                                        assert(self.log(a, b) == s1.log(a, b));
                                    }
                                }
                                if old(self).all_sessions_started() {
                                    assert forall|e: Endpoint|
                                        self.has_service(e) implies (#[trigger] self.service(
                                        e,
                                    )).uid is Some by {
                                        assert(s1.has_service(e) == s0.has_service(e));
                                        assert(self.has_service(e) == s1.has_service(e));
                                        assert(s0.service(e).uid is Some);
                                        assert(s1.service(e) == s0.service(e));
                                        if s1.is_blocked(o, d) && gp.spec_to_failure() is Some {
                                            assert(self.service(e) == s1.service(e));
                                        } else if !s1.has_service(d) {
                                            assert(self.service(e) == s1.service(e));
                                        } else if e == d {
                                            crate::service::lemma_step_uid(s1.service(d), o, gp);
                                            assert(self.service(d) == step(s1.service(d), o, gp).0);
                                        } else {
                                            assert(self.service(e) == s1.service(e));
                                        }
                                    }
                                }
                                if old(self).no_messages_pending() {
                                    assert forall|a: Endpoint, b: Endpoint| #[trigger] msgs_of(
                                        self.queue.q(a, b),
                                    ) == Seq::<Seq<u8>>::empty() by {
                                        assert(msgs_of(s0.queue.q(a, b)) == Seq::<
                                            Seq<u8>,
                                        >::empty());
                                        assert(msgs_of(self.queue.q(a, b)) == msgs_of(
                                            s1.queue.q(a, b),
                                        ));
                                        if a == o && b == d {
                                            assert(msgs_of(s0.queue.q(o, d)) == Seq::<
                                                Seq<u8>,
                                            >::empty());
                                            if gp is Message {
                                                assert(msgs_of(s0.queue.q(o, d)).len() > 0);
                                            }
                                            assert(msgs_of(s1.queue.q(o, d)) == msgs_of(
                                                s0.queue.q(o, d),
                                            ));
                                        } else {
                                            assert(s1.queue.q(a, b) == s0.queue.q(a, b));
                                        }
                                    }
                                }
                            }
                        },
                        Err(f) => {
                            proof {
                                lemma_same_services_bridge(s0, s1);
                                assert forall|e: Endpoint| #[trigger] self.has_service(e) == old(
                                    self,
                                ).has_service(e) by {
                                    assert(s1.has_service(e) == s0.has_service(e));
                                    assert(self.has_service(e) == s1.has_service(e));
                                    assert(s0.has_service(e) == old(self).has_service(e));
                                }
                                if old(self).all_sessions_started() && old(
                                    self,
                                ).no_messages_pending() {
                                    lemma_msgs_head(s0.queue.q(o, d));
                                    assert(msgs_of(s0.queue.q(o, d)) == Seq::<Seq<u8>>::empty());
                                    if gp is Message {
                                        assert(msgs_of(s0.queue.q(o, d)).len() > 0);
                                    }
                                    assert(s1.has_service(d));
                                    assert(step(s1.service(d), o, gp).1 is Err);
                                    assert(s1.has_service(d) == s0.has_service(d));
                                    assert(s0.service(d).uid is Some);
                                    assert(s1.service(d) == s0.service(d));
                                    crate::service::lemma_step_no_fault(s1.service(d), o, gp);
                                    assert(false);
                                }
                            }
                            return Err(f);
                        },
                    }
                },
            }
        }
    }
}

/// Two network states with the same service sequence register the same
/// endpoints with the same service states.
proof fn lemma_same_services_bridge(x: Network, y: Network)
    requires
        x.services@ == y.services@,
    ensures
        forall|e: Endpoint| #[trigger] y.has_service(e) == x.has_service(e),
        forall|e: Endpoint| x.has_service(e) ==> #[trigger] y.service(e) == x.service(e),
{
}

/// Two network states with the same delivery record have the same log.
proof fn lemma_same_log_bridge(x: Network, y: Network)
    requires
        x.delivered == y.delivered,
    ensures
        forall|a: Endpoint, b: Endpoint| #[trigger] y.log(a, b) == x.log(a, b),
{
}

/// After one service is rewritten in place (same slot, same endpoint), the
/// registry maps every endpoint as before, every other service is untouched,
/// and the per-service well-formedness conjuncts hold again.
proof fn lemma_forward_frame(pre: Network, post: Network, i: int, node: Endpoint)
    requires
        pre.wf(),
        0 <= i < pre.services@.len(),
        pre.services@[i].endpoint == node,
        post.services@ == pre.services@.update(i, post.services@[i]),
        post.services@[i].endpoint == node,
        post.services@[i]@.wf(),
    ensures
        forall|x: int, y: int|
            0 <= x < y < post.services@.len() ==> (#[trigger] post.services@[x]).endpoint != (
            #[trigger] post.services@[y]).endpoint,
        forall|k: int| 0 <= k < post.services@.len() ==> (#[trigger] post.services@[k])@.wf(),
        Network::same_registry(pre, post),
        Network::services_unchanged_except(pre, post, node),
        svc_idx(pre.services@, node) == Some(i),
        svc_idx(post.services@, node) == Some(i),
        post.service(node) == post.services@[i]@,
        pre.service(node) == pre.services@[i]@,
{
    let s = pre.services@;
    let s2 = post.services@;
    lemma_svc_idx_update(s, i, s2[i]);
    lemma_svc_idx(s, node);
    match svc_idx(s, node) {
        Some(k) => {
            assert(s[k].endpoint == node);
            assert(k == i) by {
                if k < i {
                    assert(s[k].endpoint != s[i].endpoint);
                } else if k > i {
                    assert(s[i].endpoint != s[k].endpoint);
                }
            }
        },
        None => {
            assert(false);
        },
    }
    assert forall|x: int, y: int|
        0 <= x < y < s2.len() implies (#[trigger] s2[x]).endpoint != (
    #[trigger] s2[y]).endpoint by {
        assert(s2[x].endpoint == s[x].endpoint);
        assert(s2[y].endpoint == s[y].endpoint);
        assert(s[x].endpoint != s[y].endpoint);
    }
    assert forall|k: int| 0 <= k < s2.len() implies (#[trigger] s2[k])@.wf() by {
        if k != i {
            assert(s2[k] == s[k]);
            assert(s[k]@.wf());
        }
    }
    assert forall|e: Endpoint| e != node && pre.has_service(e) implies #[trigger] post.service(e)
        == pre.service(e) by {
        lemma_svc_idx(s, e);
        let k = svc_idx(s, e)->0;
        assert(s[k].endpoint == e);
        assert(k != i);
        assert(s2[k] == s[k]);
    }
}

/// Distinct service endpoints stay distinct when one service is removed.
proof fn lemma_remove_keeps_distinct_endpoints(s: Seq<Service>, at: int)
    requires
        0 <= at < s.len(),
        forall|i: int, j: int|
            0 <= i < j < s.len() ==> (#[trigger] s[i]).endpoint != (#[trigger] s[j]).endpoint,
    ensures
        forall|i: int, j: int|
            0 <= i < j < s.remove(at).len() ==> (#[trigger] s.remove(at)[i]).endpoint != (
            #[trigger] s.remove(at)[j]).endpoint,
{
    let s2 = s.remove(at);
    assert forall|i: int, j: int| 0 <= i < j < s2.len() implies (#[trigger] s2[i]).endpoint != (
    #[trigger] s2[j]).endpoint by {
        let pi: int = if i < at {
            i
        } else {
            i + 1
        };
        let pj: int = if j < at {
            j
        } else {
            j + 1
        };
        assert(s2[i] == s[pi]);
        assert(s2[j] == s[pj]);
        assert(s[pi].endpoint != s[pj].endpoint);
    }
}

/// After replacing the collided slot (remove, then push of the fresh
/// service), the new service is registered on its endpoint, every other
/// endpoint is registered exactly as before, and well-formedness holds.
proof fn lemma_new_handle_post(
    pre: Seq<Service>,
    mid: Seq<Service>,
    post: Seq<Service>,
    i: int,
    svc: Service,
    endpoint: Endpoint,
)
    requires
        0 <= i < pre.len(),
        forall|x: int, y: int|
            0 <= x < y < pre.len() ==> (#[trigger] pre[x]).endpoint != (#[trigger] pre[y]).endpoint,
        forall|k: int| 0 <= k < pre.len() ==> (#[trigger] pre[k])@.wf(),
        pre[i].endpoint == endpoint,
        svc.endpoint == endpoint,
        svc@.wf(),
        mid == pre.remove(i),
        post == mid.push(svc),
    ensures
        forall|x: int, y: int|
            0 <= x < y < post.len() ==> (#[trigger] post[x]).endpoint != (
            #[trigger] post[y]).endpoint,
        forall|k: int| 0 <= k < post.len() ==> (#[trigger] post[k])@.wf(),
        svc_idx(post, endpoint) == Some(mid.len() as int),
        post[mid.len() as int] == svc,
        forall|e: Endpoint|
            e != endpoint ==> ((#[trigger] svc_idx(post, e)) is Some == svc_idx(pre, e) is Some),
        forall|e: Endpoint|
            e != endpoint && svc_idx(pre, e) is Some ==> post[(#[trigger] svc_idx(post, e))->0]
                == pre[svc_idx(pre, e)->0],
{
    lemma_remove_keeps_distinct_endpoints(pre, i);
    lemma_svc_idx_remove(pre, i);
    assert forall|k: int| 0 <= k < mid.len() implies (#[trigger] mid[k]).endpoint != endpoint by {
        let pk: int = if k < i {
            k
        } else {
            k + 1
        };
        assert(mid[k] == pre[pk]);
        assert(pre[pk].endpoint != pre[i].endpoint);
    }
    lemma_svc_idx_push(mid, svc);
    assert(post[mid.len() as int] == svc);
    assert forall|x: int, y: int| 0 <= x < y < post.len() implies (#[trigger] post[x]).endpoint
        != (#[trigger] post[y]).endpoint by {
        if y < mid.len() {
            assert(post[x] == mid[x]);
            assert(post[y] == mid[y]);
        } else {
            assert(post[y] == svc);
            assert(post[x] == mid[x]);
            assert(mid[x].endpoint != endpoint);
        }
    }
    assert forall|k: int| 0 <= k < post.len() implies (#[trigger] post[k])@.wf() by {
        if k < mid.len() {
            assert(post[k] == mid[k]);
            let pk: int = if k < i {
                k
            } else {
                k + 1
            };
            assert(mid[k] == pre[pk]);
            assert(pre[pk]@.wf());
        } else {
            assert(post[k] == svc);
        }
    }
    assert forall|e: Endpoint| e != endpoint && svc_idx(pre, e) is Some implies post[(
    #[trigger] svc_idx(post, e))->0] == pre[svc_idx(pre, e)->0] by {
        assert(svc_idx(post, e) == svc_idx(mid, e));
        assert(mid[svc_idx(mid, e)->0] == pre[svc_idx(pre, e)->0]);
        lemma_svc_idx(mid, e);
        assert(post[svc_idx(mid, e)->0] == mid[svc_idx(mid, e)->0]);
    }
}

} // verus!
