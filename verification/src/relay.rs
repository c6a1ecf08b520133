//! The fan-out delivery model of the relay server.
//!
//! A [`Relay`] tracks every connection whose handler has not yet observed
//! termination: its registry membership, whether its underlying link can
//! still accept writes, and every message delivered to it so far.  `send`
//! models one pass of the read-then-broadcast loop: the payload read from one
//! peer is delivered, byte for byte, to every other peer registered at that
//! moment whose link is live; a recipient whose link has already failed is
//! dropped from the registry instead, without disturbing the rest of the
//! pass.
//!
//! The relay deliberately excludes the sender from its own broadcast: a peer
//! never receives an echo of its own message.

use vstd::prelude::*;

use crate::registry::Registry;

verus! {

/// One accepted peer link, as the relay observes it.
struct Peer {
    id: u64,
    live: bool,
    inbox: Vec<Vec<u8>>,
}

/// The observable state of one peer.
pub ghost struct PeerView {
    /// Whether the underlying connection can still accept writes.
    pub live: bool,
    /// Every message delivered to this peer so far, in delivery order.
    pub inbox: Seq<Seq<u8>>,
}

impl Peer {
    spec fn pview(self) -> PeerView {
        PeerView { live: self.live, inbox: self.inbox.deep_view() }
    }
}

spec fn ids_unique(peers: Seq<Peer>) -> bool {
    forall|i: int, j: int|
        0 <= i < j < peers.len() ==> #[trigger] peers[i].id != #[trigger] peers[j].id
}

spec fn has_id(peers: Seq<Peer>, q: u64) -> bool {
    exists|i: int| 0 <= i < peers.len() && #[trigger] peers[i].id == q
}

spec fn index_of(peers: Seq<Peer>, q: u64) -> int {
    choose|i: int| 0 <= i < peers.len() && #[trigger] peers[i].id == q
}

/// With unique identifiers, the index holding `q` is the only one.
proof fn lemma_index_of(peers: Seq<Peer>, q: u64, i: int)
    requires
        ids_unique(peers),
        0 <= i < peers.len(),
        peers[i].id == q,
    ensures
        has_id(peers, q),
        index_of(peers, q) == i,
{
    assert(has_id(peers, q));
    let j = index_of(peers, q);
    if i != j {
        assert(peers[i].id != peers[j].id);
    }
}

/// The relay: the connection registry together with every peer whose handler
/// task is still running.
pub struct Relay {
    registry: Registry,
    peers: Vec<Peer>,
}

/// Whether one broadcast pass sent by `from` delivers to `q`: `q` must be
/// registered at the moment of the broadcast, must not be the sender (the
/// relay does not echo), and its link must still be live.
pub open spec fn delivered_to(pre: Relay, from: u64, q: u64) -> bool {
    &&& pre.registered(q)
    &&& q != from
    &&& pre@[q].live
}

/// How one broadcast pass (one read from `from`, forwarded to everyone else)
/// changes the relay: the exact `ensures` of [`Relay::send`].
///
/// The connected peers and their liveness flags are untouched.  Every peer
/// that [`delivered_to`] selects receives exactly `payload`, appended to its
/// inbox; every other inbox is unchanged.  Registered recipients whose link
/// already failed are unregistered; everyone else's registration, and the
/// sender's own, stands.
pub open spec fn send_transition(pre: Relay, post: Relay, from: u64, payload: Seq<u8>) -> bool {
    &&& post@.dom() == pre@.dom()
    &&& forall|q: u64|
        pre@.dom().contains(q) ==> #[trigger] post@[q].live == pre@[q].live
    &&& forall|q: u64|
        pre@.dom().contains(q) ==> #[trigger] post@[q].inbox == (if delivered_to(pre, from, q) {
            pre@[q].inbox.push(payload)
        } else {
            pre@[q].inbox
        })
    &&& forall|q: u64| #[trigger]
        post.registered(q) <==> (pre.registered(q) && (q == from || pre@[q].live))
    &&& post.issued() == pre.issued()
}

/// Index-level counterpart of [`delivered_to`], used inside the broadcast
/// loop: the peer at index `i` is a recipient with a live link.
spec fn deliver_at(pre: Relay, from: u64, i: int) -> bool {
    &&& pre.registered(pre.peers@[i].id)
    &&& pre.peers@[i].id != from
    &&& pre.peers@[i].live
}

/// The peer at index `i` is a recipient whose link already failed: its write
/// fails and it is scheduled for removal.
spec fn fail_at(pre: Relay, from: u64, i: int) -> bool {
    &&& pre.registered(pre.peers@[i].id)
    &&& pre.peers@[i].id != from
    &&& !pre.peers@[i].live
}

/// Whether `q` belongs to a failed recipient among the first `k` peers, and
/// so has been unregistered by the broadcast pass up to that point.
spec fn removed_before(pre: Relay, from: u64, k: int, q: u64) -> bool {
    exists|i: int| 0 <= i < k && pre.peers@[i].id == q && #[trigger] fail_at(pre, from, i)
}

proof fn lemma_removed_before_step(pre: Relay, from: u64, k: int, q: u64)
    requires
        0 <= k < pre.peers@.len(),
    ensures
        removed_before(pre, from, k + 1, q) <==> (removed_before(pre, from, k, q) || (
        pre.peers@[k].id == q && fail_at(pre, from, k))),
{
    if removed_before(pre, from, k + 1, q) {
        let i = choose|i: int|
            0 <= i < k + 1 && pre.peers@[i].id == q && #[trigger] fail_at(pre, from, i);
        if i < k {
            assert(removed_before(pre, from, k, q));
        }
    }
    if removed_before(pre, from, k, q) {
        let i = choose|i: int|
            0 <= i < k && pre.peers@[i].id == q && #[trigger] fail_at(pre, from, i);
        assert(0 <= i < k + 1 && pre.peers@[i].id == q && fail_at(pre, from, i));
    }
}

/// How one disconnect changes the relay: the exact `ensures` of
/// [`Relay::disconnect`].  The peer is removed from the observable state and
/// from the registry; no other peer's registration, liveness or inbox moves.
pub open spec fn disconnect_transition(pre: Relay, post: Relay, id: u64) -> bool {
    &&& post@ == pre@.remove(id)
    &&& forall|q: u64| #[trigger] post.registered(q) <==> (pre.registered(q) && q != id)
    &&& post.issued() == pre.issued()
}

impl View for Relay {
    type V = Map<u64, PeerView>;

    /// The observable state: each connected peer's identifier, mapped to its
    /// liveness flag and the messages delivered to it so far.
    closed spec fn view(&self) -> Map<u64, PeerView> {
        Map::new(
            |q: u64| has_id(self.peers@, q),
            |q: u64| self.peers@[index_of(self.peers@, q)].pview(),
        )
    }
}

impl Relay {
    /// The registry's observable membership: which peers broadcasts are still
    /// addressed to.
    pub closed spec fn members(self) -> Set<u64> {
        self.registry@
    }

    /// Whether the handle `q` is currently registered for broadcasts.
    pub open spec fn registered(self, q: u64) -> bool {
        self.members().contains(q)
    }

    /// The identifier the next connection will receive.
    pub closed spec fn issued(self) -> u64 {
        self.registry.issued()
    }

    /// Internal well-formedness: peer identifiers are unique and not yet
    /// reissued, and only connected peers are registered.
    pub closed spec fn wf(self) -> bool {
        &&& self.registry.wf()
        &&& ids_unique(self.peers@)
        &&& forall|i: int|
            0 <= i < self.peers@.len() ==> #[trigger] self.peers@[i].id < self.registry.issued()
        &&& forall|q: u64| #[trigger] self.registry@.contains(q) ==> has_id(self.peers@, q)
    }

    /// A relay with no peer connected and no identifier issued yet.
    pub fn new() -> (r: Relay)
        ensures
            r.wf(),
            r@ == Map::<u64, PeerView>::empty(),
            r.members() == Set::<u64>::empty(),
            r.issued() == 0,
    {
        let r = Relay { registry: Registry::new(), peers: Vec::new() };
        proof {
            assert(r@ =~= Map::<u64, PeerView>::empty());
        }
        r
    }

    /// Accepts one peer: issues a fresh identifier, registers its write
    /// handle (so it is eligible for broadcasts before it sends anything),
    /// and starts it with a live link and an empty inbox.
    pub fn connect(&mut self) -> (id: u64)
        requires
            old(self).wf(),
            old(self).issued() < u64::MAX,
        ensures
            final(self).wf(),
            id == old(self).issued(),
            !old(self)@.dom().contains(id),
            !old(self).registered(id),
            final(self)@ == old(self)@.insert(
                id,
                PeerView { live: true, inbox: Seq::empty() },
            ),
            forall|q: u64| #[trigger]
                final(self).registered(q) <==> (old(self).registered(q) || q == id),
            final(self).issued() == old(self).issued() + 1,
    {
        let id = self.registry.register();
        self.peers.push(Peer { id, live: true, inbox: Vec::new() });
        proof {
            let oldp = old(self).peers@;
            let newp = self.peers@;
            assert(!has_id(oldp, id)) by {
                if has_id(oldp, id) {
                    let i = choose|i: int| 0 <= i < oldp.len() && oldp[i].id == id;
                    assert(oldp[i].id < id);
                }
            };
            assert(newp[oldp.len() as int].id == id);
            assert forall|q: u64| has_id(newp, q) implies (has_id(oldp, q) || q == id) by {
                let i = choose|i: int| 0 <= i < newp.len() && newp[i].id == q;
                if i < oldp.len() {
                    assert(oldp[i].id == q);
                }
            };
            assert forall|q: u64| has_id(oldp, q) implies has_id(newp, q) by {
                let i = choose|i: int| 0 <= i < oldp.len() && oldp[i].id == q;
                assert(newp[i].id == q);
            };
            assert(ids_unique(newp)) by {
                assert forall|i: int, j: int|
                    0 <= i < j < newp.len() implies newp[i].id != newp[j].id by {
                    if j < oldp.len() {
                        assert(oldp[i].id != oldp[j].id);
                    } else {
                        assert(oldp[i].id < id);
                    }
                };
            };
            assert(self@ =~= old(self)@.insert(id, PeerView { live: true, inbox: Seq::empty() }))
                by {
                assert forall|q: u64| #[trigger] self@.dom().contains(q) && q != id implies self@[q]
                    == old(self)@[q] by {
                    let i = choose|i: int| 0 <= i < oldp.len() && oldp[i].id == q;
                    lemma_index_of(oldp, q, i);
                    lemma_index_of(newp, q, i);
                };
                assert(self@.dom().contains(id));
                lemma_index_of(newp, id, oldp.len() as int);
                assert(self@[id].inbox =~= Seq::<Seq<u8>>::empty());
                assert(self@[id] == PeerView { live: true, inbox: Seq::empty() });
            };
        }
        id
    }

    /// The handler of `id` observed termination (end-of-stream or an I/O
    /// error): the connection is unregistered and destroyed.  Idempotent:
    /// disconnecting an unknown identifier changes nothing.
    pub fn disconnect(&mut self, id: u64)
        requires
            old(self).wf(),
        ensures
            final(self).wf(),
            disconnect_transition(*old(self), *final(self), id),
    {
        self.registry.unregister(id);
        let n = self.peers.len();
        let mut k: usize = 0;
        while k < n
            invariant
                self.peers == old(self).peers,
                old(self).wf(),
                self.registry.wf(),
                self.registry@ == old(self).registry@.remove(id),
                self.registry.issued() == old(self).registry.issued(),
                n == self.peers@.len(),
                k <= n,
                forall|i: int| 0 <= i < k ==> #[trigger] self.peers@[i].id != id,
            decreases n - k,
        {
            if self.peers[k].id == id {
                self.peers.remove(k);
                proof {
                    let oldp = old(self).peers@;
                    let newp = self.peers@;
                    oldp.remove_ensures(k as int);
                    assert(oldp[k as int].id == id);
                    assert forall|q: u64| has_id(newp, q) implies (has_id(oldp, q) && q != id) by {
                        let i = choose|i: int| 0 <= i < newp.len() && newp[i].id == q;
                        if i < k {
                            assert(newp[i] == oldp[i]);
                            assert(oldp[i].id != oldp[k as int].id);
                        } else {
                            assert(newp[i] == oldp[i + 1]);
                            assert(oldp[i + 1].id != oldp[k as int].id);
                        }
                    };
                    assert forall|q: u64| has_id(oldp, q) && q != id implies has_id(newp, q) by {
                        let i = choose|i: int| 0 <= i < oldp.len() && oldp[i].id == q;
                        if i < k {
                            assert(newp[i] == oldp[i]);
                        } else {
                            assert(i != k);
                            assert(newp[i - 1] == oldp[i]);
                        }
                    };
                    assert(ids_unique(newp)) by {
                        assert forall|i: int, j: int|
                            0 <= i < j < newp.len() implies newp[i].id != newp[j].id by {
                            if j < k {
                                assert(newp[i] == oldp[i]);
                                assert(newp[j] == oldp[j]);
                            } else if i < k {
                                assert(newp[i] == oldp[i]);
                                assert(newp[j] == oldp[j + 1]);
                                assert(oldp[i].id != oldp[j + 1].id);
                            } else {
                                assert(newp[i] == oldp[i + 1]);
                                assert(newp[j] == oldp[j + 1]);
                                assert(oldp[i + 1].id != oldp[j + 1].id);
                            }
                        };
                    };
                    assert(self@ =~= old(self)@.remove(id)) by {
                        assert forall|q: u64| #[trigger] self@.dom().contains(q) implies self@[q]
                            == old(self)@[q] by {
                            let i = choose|i: int| 0 <= i < newp.len() && newp[i].id == q;
                            lemma_index_of(newp, q, i);
                            if i < k {
                                lemma_index_of(oldp, q, i);
                            } else {
                                lemma_index_of(oldp, q, i + 1);
                            }
                        };
                    };
                }
                return ;
            }
            k += 1;
        }
        proof {
            assert(!has_id(self.peers@, id));
            assert(self@ =~= old(self)@.remove(id));
            assert(self.registry@ =~= old(self).registry@) by {
                if old(self).registry@.contains(id) {
                    assert(has_id(old(self).peers@, id));
                }
            };
        }
    }

    /// The underlying link of `id` failed (peer gone, broken pipe): its next
    /// write will not succeed.  The peer stays connected and registered until
    /// a broadcast attempt or its own handler observes the failure; nothing
    /// already delivered is lost.
    pub fn fail_link(&mut self, id: u64)
        requires
            old(self).wf(),
        ensures
            final(self).wf(),
            final(self)@.dom() == old(self)@.dom(),
            forall|q: u64| #[trigger] final(self).registered(q) == old(self).registered(q),
            forall|q: u64|
                old(self)@.dom().contains(q) ==> #[trigger] final(self)@[q].inbox
                    == old(self)@[q].inbox,
            forall|q: u64|
                old(self)@.dom().contains(q) && q != id ==> #[trigger] final(self)@[q].live
                    == old(self)@[q].live,
            old(self)@.dom().contains(id) ==> !final(self)@[id].live,
            final(self).issued() == old(self).issued(),
    {
        let n = self.peers.len();
        let mut k: usize = 0;
        while k < n
            invariant
                self == old(self),
                old(self).wf(),
                n == self.peers@.len(),
                k <= n,
                forall|i: int| 0 <= i < k ==> #[trigger] self.peers@[i].id != id,
            decreases n - k,
        {
            if self.peers[k].id == id {
                let mut p = self.peers.remove(k);
                p.live = false;
                self.peers.insert(k, p);
                proof {
                    let oldp = old(self).peers@;
                    let newp = self.peers@;
                    oldp.remove_ensures(k as int);
                    oldp.remove(k as int).insert_ensures(k as int, p);
                    assert(newp =~= oldp.update(k as int, p));
                    assert forall|q: u64| has_id(newp, q) <==> has_id(oldp, q) by {
                        if has_id(newp, q) {
                            let i = choose|i: int| 0 <= i < newp.len() && newp[i].id == q;
                            assert(oldp[i].id == q);
                        }
                        if has_id(oldp, q) {
                            let i = choose|i: int| 0 <= i < oldp.len() && oldp[i].id == q;
                            assert(newp[i].id == q);
                        }
                    };
                    assert(ids_unique(newp)) by {
                        assert forall|i: int, j: int|
                            0 <= i < j < newp.len() implies newp[i].id != newp[j].id by {
                            assert(oldp[i].id != oldp[j].id);
                        };
                    };
                    assert(self@.dom() =~= old(self)@.dom());
                    assert forall|q: u64| #[trigger] self@.dom().contains(q) && q != id
                        implies self@[q] == old(self)@[q] by {
                        let i = choose|i: int| 0 <= i < newp.len() && newp[i].id == q;
                        lemma_index_of(newp, q, i);
                        lemma_index_of(oldp, q, i);
                        assert(i != k);
                    };
                    lemma_index_of(newp, id, k as int);
                    lemma_index_of(oldp, id, k as int);
                    assert(self@[id].inbox == old(self)@[id].inbox);
                }
                return ;
            }
            k += 1;
        }
        proof {
            assert(!has_id(self.peers@, id));
            assert(self@.dom() =~= old(self)@.dom());
        }
    }

    /// One pass of the read-then-broadcast loop: the exact bytes read from
    /// `from` are forwarded to every other peer registered at this moment.
    /// A recipient whose link is live receives `payload` appended to its
    /// inbox; a recipient whose link already failed receives nothing and is
    /// unregistered instead — its failure never aborts the pass.
    pub fn send(&mut self, from: u64, payload: &[u8])
        requires
            old(self).wf(),
        ensures
            final(self).wf(),
            send_transition(*old(self), *final(self), from, payload@),
    {
        let n = self.peers.len();
        let mut k: usize = 0;
        while k < n
            invariant
                old(self).wf(),
                n == self.peers@.len(),
                k <= n,
                self.peers@.len() == old(self).peers@.len(),
                forall|i: int|
                    0 <= i < n ==> #[trigger] self.peers@[i].id == old(self).peers@[i].id,
                forall|i: int|
                    0 <= i < n ==> #[trigger] self.peers@[i].live == old(self).peers@[i].live,
                forall|i: int|
                    0 <= i < n ==> #[trigger] self.peers@[i].inbox.deep_view() == (if i < k
                        && deliver_at(*old(self), from, i) {
                        old(self).peers@[i].inbox.deep_view().push(payload@)
                    } else {
                        old(self).peers@[i].inbox.deep_view()
                    }),
                self.registry.wf(),
                self.registry.issued() == old(self).registry.issued(),
                forall|q: u64| #[trigger]
                    self.registry@.contains(q) <==> (old(self).registry@.contains(q)
                        && !removed_before(*old(self), from, k as int, q)),
            decreases n - k,
        {
            let ghost prev = *self;
            let id = self.peers[k].id;
            proof {
                assert(!removed_before(*old(self), from, k as int, id)) by {
                    if removed_before(*old(self), from, k as int, id) {
                        let i = choose|i: int|
                            0 <= i < k && old(self).peers@[i].id == id && #[trigger] fail_at(
                                *old(self),
                                from,
                                i,
                            );
                        assert(old(self).peers@[i].id != old(self).peers@[k as int].id);
                    }
                };
            }
            if id != from && self.registry.is_registered(id) {
                if self.peers[k].live {
                    let msg = vstd::slice::slice_to_vec(payload);
                    proof {
                        assert(msg.deep_view() =~= payload@);
                    }
                    let mut p = self.peers.remove(k);
                    let ghost inbox0 = p.inbox;
                    p.inbox.push(msg);
                    proof {
                        assert(p.inbox.deep_view() =~= inbox0.deep_view().push(payload@));
                    }
                    self.peers.insert(k, p);
                    proof {
                        prev.peers@.remove_ensures(k as int);
                        prev.peers@.remove(k as int).insert_ensures(k as int, p);
                        assert(self.peers@ =~= prev.peers@.update(k as int, p));
                        assert(deliver_at(*old(self), from, k as int));
                        assert forall|q: u64| #[trigger]
                            self.registry@.contains(q) <==> (old(self).registry@.contains(q)
                                && !removed_before(*old(self), from, k as int + 1, q)) by {
                            lemma_removed_before_step(*old(self), from, k as int, q);
                        };
                    }
                } else {
                    self.registry.unregister(id);
                    proof {
                        assert(fail_at(*old(self), from, k as int));
                        assert forall|q: u64| #[trigger]
                            self.registry@.contains(q) <==> (old(self).registry@.contains(q)
                                && !removed_before(*old(self), from, k as int + 1, q)) by {
                            lemma_removed_before_step(*old(self), from, k as int, q);
                        };
                    }
                }
            } else {
                proof {
                    assert(!fail_at(*old(self), from, k as int)) by {
                        if id == from {
                        } else {
                            assert(!prev.registry@.contains(id));
                        }
                    };
                    assert forall|q: u64| #[trigger]
                        self.registry@.contains(q) <==> (old(self).registry@.contains(q)
                            && !removed_before(*old(self), from, k as int + 1, q)) by {
                        lemma_removed_before_step(*old(self), from, k as int, q);
                    };
                }
            }
            k += 1;
        }
        proof {
            let pre = *old(self);
            let post = *self;
            assert forall|q: u64| has_id(post.peers@, q) <==> has_id(pre.peers@, q) by {
                if has_id(post.peers@, q) {
                    let i = choose|i: int| 0 <= i < post.peers@.len() && post.peers@[i].id == q;
                    assert(pre.peers@[i].id == q);
                }
                if has_id(pre.peers@, q) {
                    let i = choose|i: int| 0 <= i < pre.peers@.len() && pre.peers@[i].id == q;
                    assert(post.peers@[i].id == q);
                }
            };
            assert(post@.dom() =~= pre@.dom());
            assert(ids_unique(post.peers@)) by {
                assert forall|i: int, j: int|
                    0 <= i < j < post.peers@.len() implies post.peers@[i].id
                    != post.peers@[j].id by {
                    assert(pre.peers@[i].id != pre.peers@[j].id);
                };
            };
            assert forall|q: u64| pre@.dom().contains(q) implies {
                &&& #[trigger] post@[q].live == pre@[q].live
                &&& post@[q].inbox == (if delivered_to(pre, from, q) {
                    pre@[q].inbox.push(payload@)
                } else {
                    pre@[q].inbox
                })
            } by {
                let i = choose|i: int| 0 <= i < pre.peers@.len() && pre.peers@[i].id == q;
                lemma_index_of(pre.peers@, q, i);
                lemma_index_of(post.peers@, q, i);
                assert(deliver_at(pre, from, i) == delivered_to(pre, from, q));
            };
            assert forall|q: u64| #[trigger] post.registered(q) <==> (pre.registered(q) && (q
                == from || pre@[q].live)) by {
                if pre.registry@.contains(q) {
                    let i = choose|i: int| 0 <= i < pre.peers@.len() && pre.peers@[i].id == q;
                    lemma_index_of(pre.peers@, q, i);
                    if q != from && !pre@[q].live {
                        assert(fail_at(pre, from, i));
                        assert(removed_before(pre, from, n as int, q));
                    }
                    if removed_before(pre, from, n as int, q) {
                        let j = choose|j: int|
                            0 <= j < n && pre.peers@[j].id == q && #[trigger] fail_at(
                                pre,
                                from,
                                j,
                            );
                        if i != j {
                            assert(pre.peers@[i].id != pre.peers@[j].id);
                        }
                        assert(!pre@[q].live && q != from);
                    }
                }
            };
            assert forall|q: u64| #[trigger] post.registry@.contains(q) implies has_id(
                post.peers@,
                q,
            ) by {
                assert(pre.registry@.contains(q));
            };
        }
    }

    /// Whether the peer `id` is still connected (its handler has not yet
    /// observed termination).
    pub fn is_connected(&self, id: u64) -> (r: bool)
        requires
            self.wf(),
        ensures
            r == self@.dom().contains(id),
    {
        let n = self.peers.len();
        let mut k: usize = 0;
        while k < n
            invariant
                self.wf(),
                n == self.peers@.len(),
                k <= n,
                forall|i: int| 0 <= i < k ==> #[trigger] self.peers@[i].id != id,
            decreases n - k,
        {
            if self.peers[k].id == id {
                return true;
            }
            k += 1;
        }
        proof {
            assert(!has_id(self.peers@, id));
        }
        false
    }

    /// Whether the peer `id` is currently registered for broadcasts.
    pub fn is_registered(&self, id: u64) -> (r: bool)
        ensures
            r == self.registered(id),
    {
        self.registry.is_registered(id)
    }

    /// How many write handles are currently registered.
    pub fn registered_count(&self) -> (n: usize)
        requires
            self.wf(),
        ensures
            n == self.members().len(),
    {
        self.registry.count()
    }

    /// The messages delivered to peer `id` so far, in delivery order, or
    /// `None` if no such peer is connected.
    pub fn inbox_of(&self, id: u64) -> (r: Option<&Vec<Vec<u8>>>)
        requires
            self.wf(),
        ensures
            match r {
                Some(v) => self@.dom().contains(id) && v.deep_view() == self@[id].inbox,
                None => !self@.dom().contains(id),
            },
    {
        let n = self.peers.len();
        let mut k: usize = 0;
        while k < n
            invariant
                self.wf(),
                n == self.peers@.len(),
                k <= n,
                forall|i: int| 0 <= i < k ==> #[trigger] self.peers@[i].id != id,
            decreases n - k,
        {
            if self.peers[k].id == id {
                proof {
                    lemma_index_of(self.peers@, id, k as int);
                }
                return Some(&self.peers[k].inbox);
            }
            k += 1;
        }
        proof {
            assert(!has_id(self.peers@, id));
        }
        None
    }
}

/// A registered handle always belongs to a connected peer: the registry
/// contains exactly write handles of connections whose handler task has not
/// yet observed termination.
pub proof fn lemma_registered_is_connected(r: Relay, q: u64)
    requires
        r.wf(),
        r.registered(q),
    ensures
        r@.dom().contains(q),
{
}

/// A message sent by a peer is delivered, byte for byte, to every peer that
/// was registered at the moment of the broadcast with a live link — except
/// the sender itself, which the relay's no-echo policy excludes.
pub proof fn lemma_broadcast_delivery(
    pre: Relay,
    post: Relay,
    from: u64,
    payload: Seq<u8>,
    q: u64,
)
    requires
        pre.wf(),
        send_transition(pre, post, from, payload),
        pre.registered(q),
        q != from,
        pre@[q].live,
    ensures
        post@[q].inbox == pre@[q].inbox.push(payload),
        post@[q].inbox.last() == payload,
{
    lemma_registered_is_connected(pre, q);
}

/// Fault isolation: a recipient whose link has already failed does not
/// prevent delivery to any live recipient.  The dead handle is unregistered
/// by the pass, while every live recipient still receives the payload.
pub proof fn lemma_broadcast_fault_isolation(
    pre: Relay,
    post: Relay,
    from: u64,
    payload: Seq<u8>,
    dead: u64,
    q: u64,
)
    requires
        pre.wf(),
        send_transition(pre, post, from, payload),
        pre.registered(dead),
        dead != from,
        !pre@[dead].live,
        pre.registered(q),
        q != from,
        pre@[q].live,
    ensures
        !post.registered(dead),
        post@[q].inbox == pre@[q].inbox.push(payload),
{
    lemma_registered_is_connected(pre, dead);
    lemma_broadcast_delivery(pre, post, from, payload, q);
}

/// Disconnecting one peer affects nothing observable about any other peer:
/// its connection, registration, liveness and inbox all stand as they were.
pub proof fn lemma_disconnect_isolation(pre: Relay, post: Relay, id: u64, q: u64)
    requires
        pre.wf(),
        disconnect_transition(pre, post, id),
        q != id,
    ensures
        post@.dom().contains(q) == pre@.dom().contains(q),
        pre@.dom().contains(q) ==> post@[q] == pre@[q],
        post.registered(q) == pre.registered(q),
{
}

/// The relay's chosen (and documented) self-receipt policy: a broadcast never
/// delivers the message back to its own sender.
pub proof fn lemma_sender_never_receives_own_message(
    pre: Relay,
    post: Relay,
    from: u64,
    payload: Seq<u8>,
)
    requires
        pre.wf(),
        send_transition(pre, post, from, payload),
        pre@.dom().contains(from),
    ensures
        post@[from].inbox == pre@[from].inbox,
{
}

/// Within a single connection, messages are delivered to every recipient in
/// the order they were read: two consecutive broadcasts from the same sender
/// end up adjacent, and in read order, in a recipient's inbox.
pub proof fn lemma_per_sender_delivery_order(
    s0: Relay,
    s1: Relay,
    s2: Relay,
    from: u64,
    first: Seq<u8>,
    second: Seq<u8>,
    q: u64,
)
    requires
        s0.wf(),
        s1.wf(),
        send_transition(s0, s1, from, first),
        send_transition(s1, s2, from, second),
        delivered_to(s0, from, q),
        delivered_to(s1, from, q),
    ensures
        s2@[q].inbox.len() == s0@[q].inbox.len() + 2,
        s2@[q].inbox[s2@[q].inbox.len() - 2] == first,
        s2@[q].inbox[s2@[q].inbox.len() - 1] == second,
{
    lemma_registered_is_connected(s0, q);
    lemma_registered_is_connected(s1, q);
}

/// Disconnecting one peer does not affect delivery to the others: a
/// broadcast after the disconnect still reaches every remaining live
/// registered peer exactly as before.
pub proof fn lemma_disconnect_preserves_delivery(
    pre: Relay,
    mid: Relay,
    post: Relay,
    id: u64,
    from: u64,
    payload: Seq<u8>,
    q: u64,
)
    requires
        pre.wf(),
        mid.wf(),
        disconnect_transition(pre, mid, id),
        send_transition(mid, post, from, payload),
        q != id,
        q != from,
        pre.registered(q),
        pre@[q].live,
    ensures
        post@[q].inbox == pre@[q].inbox.push(payload),
{
    lemma_registered_is_connected(pre, q);
    lemma_disconnect_isolation(pre, mid, id, q);
    lemma_broadcast_delivery(mid, post, from, payload, q);
}

} // verus!
