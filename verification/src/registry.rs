//! The connection registry: shared bookkeeping of live peer connections.
//!
//! The registry records which write handles may still be broadcast to, as a
//! set of handle identifiers.  Identifiers are assigned at registration time
//! and are never reused, so a stale identifier can never reach a later
//! connection.  The surrounding server keeps the actual write handles (one
//! stream per identifier) and serializes all access to the registry with a
//! single exclusive lock; this type contains the membership logic itself.

use vstd::prelude::*;

verus! {

/// The shared collection of all live connections' write sides, as the set of
/// their handle identifiers.
///
/// The observable state is the membership set (`self@`) together with the
/// next identifier to be issued (`self.issued()`).
pub struct Registry {
    handles: Vec<u64>,
    next_id: u64,
}

impl View for Registry {
    type V = Set<u64>;

    /// Observable membership: the set of currently registered handle
    /// identifiers.
    closed spec fn view(&self) -> Set<u64> {
        self.handles@.to_set()
    }
}

impl Registry {
    /// Internal well-formedness: no identifier is registered twice, and every
    /// registered identifier has already been issued.
    pub closed spec fn wf(self) -> bool {
        &&& self.handles@.no_duplicates()
        &&& forall|i: int|
            0 <= i < self.handles@.len() ==> #[trigger] self.handles@[i] < self.next_id
    }

    /// The identifier the next registration will receive; equivalently, how
    /// many identifiers have been issued so far.
    pub closed spec fn issued(self) -> u64 {
        self.next_id
    }

    /// An empty registry: no connection is registered and no identifier has
    /// been issued yet.
    pub fn new() -> (r: Registry)
        ensures
            r.wf(),
            r@ == Set::<u64>::empty(),
            r.issued() == 0,
    {
        let r = Registry { handles: Vec::new(), next_id: 0 };
        proof {
            assert(r@ =~= Set::<u64>::empty());
        }
        r
    }

    /// Whether the handle `id` is currently registered.
    pub fn is_registered(&self, id: u64) -> (r: bool)
        ensures
            r == self@.contains(id),
    {
        let n = self.handles.len();
        let mut k: usize = 0;
        while k < n
            invariant
                n == self.handles@.len(),
                k <= n,
                forall|i: int| 0 <= i < k ==> #[trigger] self.handles@[i] != id,
            decreases n - k,
        {
            if self.handles[k] == id {
                return true;
            }
            k += 1;
        }
        false
    }

    /// Whether a fresh identifier is still available; holds until the
    /// machine limit of `u64::MAX` registrations is reached.
    pub fn can_register(&self) -> (r: bool)
        ensures
            r == (self.issued() < u64::MAX),
    {
        self.next_id < u64::MAX
    }

    /// Registers a new connection's write handle and returns its fresh
    /// identifier.  Never fails: the only precondition is the machine limit
    /// that identifiers have not been exhausted.
    pub fn register(&mut self) -> (id: u64)
        requires
            old(self).wf(),
            old(self).issued() < u64::MAX,
        ensures
            final(self).wf(),
            id == old(self).issued(),
            !old(self)@.contains(id),
            final(self)@ == old(self)@.insert(id),
            final(self).issued() == old(self).issued() + 1,
    {
        let id = self.next_id;
        proof {
            assert(!old(self).handles@.contains(id));
        }
        self.handles.push(id);
        self.next_id = self.next_id + 1;
        proof {
            let oldh = old(self).handles@;
            let newh = self.handles@;
            assert forall|q: u64| newh.contains(q) implies (oldh.contains(q) || q == id) by {
                let i = choose|i: int| 0 <= i < newh.len() && newh[i] == q;
                if i < oldh.len() {
                    assert(oldh[i] == q);
                }
            };
            assert forall|q: u64| oldh.contains(q) implies newh.contains(q) by {
                let i = choose|i: int| 0 <= i < oldh.len() && oldh[i] == q;
                assert(newh[i] == q);
            };
            assert(newh[oldh.len() as int] == id);
            assert(self@ =~= old(self)@.insert(id));
        }
        id
    }

    /// Removes the handle `id` from the registry.  Idempotent: unregistering
    /// an identifier that is not (or no longer) registered leaves the
    /// membership unchanged and is not an error.
    pub fn unregister(&mut self, id: u64)
        requires
            old(self).wf(),
        ensures
            final(self).wf(),
            final(self)@ == old(self)@.remove(id),
            final(self).issued() == old(self).issued(),
    {
        let n = self.handles.len();
        let mut k: usize = 0;
        while k < n
            invariant
                self == old(self),
                self.wf(),
                n == self.handles@.len(),
                k <= n,
                forall|i: int| 0 <= i < k ==> #[trigger] self.handles@[i] != id,
            decreases n - k,
        {
            if self.handles[k] == id {
                self.handles.remove(k);
                proof {
                    let oldh = old(self).handles@;
                    let newh = self.handles@;
                    oldh.remove_ensures(k as int);
                    assert(oldh[k as int] == id);
                    assert forall|q: u64| newh.contains(q) implies (oldh.contains(q) && q != id) by {
                        let i = choose|i: int| 0 <= i < newh.len() && newh[i] == q;
                        if i < k {
                            assert(newh[i] == oldh[i]);
                            assert(oldh[i] != oldh[k as int]);
                        } else {
                            assert(newh[i] == oldh[i + 1]);
                            assert(oldh[i + 1] != oldh[k as int]);
                        }
                    };
                    assert forall|q: u64| oldh.contains(q) && q != id implies newh.contains(q) by {
                        let i = choose|i: int| 0 <= i < oldh.len() && oldh[i] == q;
                        if i < k {
                            assert(newh[i] == oldh[i]);
                        } else {
                            assert(i != k);
                            assert(newh[i - 1] == oldh[i]);
                        }
                    };
                    assert forall|i: int, j: int|
                        0 <= i < j < newh.len() implies newh[i] != newh[j] by {
                        if j < k {
                            assert(newh[i] == oldh[i]);
                            assert(newh[j] == oldh[j]);
                        } else if i < k {
                            assert(newh[i] == oldh[i]);
                            assert(newh[j] == oldh[j + 1]);
                            assert(oldh[i] != oldh[j + 1]);
                        } else {
                            assert(newh[i] == oldh[i + 1]);
                            assert(newh[j] == oldh[j + 1]);
                            assert(oldh[i + 1] != oldh[j + 1]);
                        }
                    };
                    assert(self@ =~= old(self)@.remove(id));
                }
                return ;
            }
            k += 1;
        }
        proof {
            assert(!self.handles@.contains(id));
            assert(self@ =~= old(self)@.remove(id));
        }
    }

    /// How many connections are currently registered.
    pub fn count(&self) -> (n: usize)
        requires
            self.wf(),
        ensures
            n == self@.len(),
    {
        proof {
            self.handles@.unique_seq_to_set();
        }
        self.handles.len()
    }

    /// The broadcast plan: every currently registered handle, except
    /// `exclude` if one is given, each exactly once.  The caller attempts one
    /// write per returned identifier; a failing write must not stop it from
    /// attempting the rest.
    pub fn recipients(&self, exclude: Option<u64>) -> (r: Vec<u64>)
        requires
            self.wf(),
        ensures
            r@.no_duplicates(),
            forall|q: u64| #[trigger]
                r@.contains(q) <==> (self@.contains(q) && Some(q) != exclude),
    {
        let n = self.handles.len();
        let mut r: Vec<u64> = Vec::new();
        let mut k: usize = 0;
        while k < n
            invariant
                self.wf(),
                n == self.handles@.len(),
                k <= n,
                r@.no_duplicates(),
                forall|q: u64| #[trigger]
                    r@.contains(q) <==> (self.handles@.subrange(0, k as int).contains(q)
                        && Some(q) != exclude),
            decreases n - k,
        {
            let ghost r_seen = r@;
            let id = self.handles[k];
            let keep = match exclude {
                Some(x) => id != x,
                None => true,
            };
            if keep {
                r.push(id);
            }
            proof {
                broadcast use vstd::seq_lib::group_seq_properties;

                let pre = self.handles@.subrange(0, k as int);
                let post = self.handles@.subrange(0, k as int + 1);
                assert forall|q: u64| post.contains(q) implies (pre.contains(q) || q == id) by {
                    let i = choose|i: int| 0 <= i < k as int + 1 && self.handles@[i] == q;
                    if i < k {
                        assert(pre[i] == q);
                    } else {
                        assert(q == self.handles@[k as int]);
                    }
                };
                assert forall|q: u64| pre.contains(q) implies post.contains(q) by {
                    let i = choose|i: int| 0 <= i < k && self.handles@[i] == q;
                    assert(post[i] == q);
                };
                assert(post[k as int] == id);
                assert(post.contains(id));
                assert(!pre.contains(id)) by {
                    if pre.contains(id) {
                        let i = choose|i: int| 0 <= i < k && self.handles@[i] == id;
                        assert(self.handles@[i] != self.handles@[k as int]);
                    }
                };
                if keep {
                    assert(r@ == r_seen.push(id));
                    assert(!r_seen.contains(id));
                    assert forall|i: int, j: int|
                        0 <= i < j < r@.len() implies r@[i] != r@[j] by {
                        if j < r_seen.len() {
                            assert(r@[i] == r_seen[i]);
                            assert(r@[j] == r_seen[j]);
                        } else {
                            assert(r@[j] == id);
                            assert(r@[i] == r_seen[i]);
                            assert(r_seen.contains(r_seen[i]));
                        }
                    };
                }
            }
            k += 1;
        }
        proof {
            assert(self.handles@.subrange(0, n as int) =~= self.handles@);
        }
        r
    }
}

/// Registering a connection and then immediately unregistering it leaves the
/// registry's observable membership exactly as it was: `register` adds a
/// fresh identifier to the membership set and `unregister` removes the very
/// same identifier again.
pub proof fn lemma_register_then_unregister(members: Set<u64>, id: u64)
    requires
        !members.contains(id),
    ensures
        members.insert(id).remove(id) == members,
{
    assert(members.insert(id).remove(id) =~= members);
}

} // verus!
