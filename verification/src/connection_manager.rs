//! Registry of live connections: which peer is connected from which
//! remote address.
//!
//! An incoming connection is admitted only when its address is under the
//! per-address cap and the peer passes the allow/deny policy, in that
//! order; the address counter is taken before the peer check and, as in
//! the wire protocol's admission order, is not released when the peer
//! check then refuses. A closed connection releases its address counter.
//! Inbound messages from identities not registered here are dropped by
//! the pipeline.

use vstd::prelude::*;

verus! {

use crate::security::{AccessControl, AdmissionError, peer_allowed, opt_wl, id_listed};
use crate::strings::str_eq_chars;
use crate::whitelist::{PeerWhitelist, wl_active};

/// Tracks live `peer -> address` bindings and owns the admission control.
pub struct ConnectionManager {
    access_control: AccessControl,
    active_connections: Vec<(String, String)>,
}

impl ConnectionManager {
    /// The live bindings, in admission order.
    pub closed spec fn connections(&self) -> Seq<(String, String)> {
        self.active_connections@
    }

    /// The access control the registry consults.
    pub closed spec fn admission(&self) -> AccessControl {
        self.access_control
    }

    /// Whether `p` is currently connected.
    pub open spec fn connected(&self, p: Seq<char>) -> bool {
        exists|i: int|
            0 <= i < self.connections().len() && (#[trigger] self.connections()[i].0)@ == p
    }

    /// Peers are registered at most once; the access control is consistent.
    pub closed spec fn wf(&self) -> bool {
        &&& forall|i: int, j: int|
            0 <= i < j < self.active_connections@.len() ==> (
            #[trigger] self.active_connections@[i].0)@ != (
            #[trigger] self.active_connections@[j].0)@
        &&& self.access_control.wf()
    }

    /// Create a registry around an admission control.
    pub fn new(access_control: AccessControl) -> (r: ConnectionManager)
        requires
            access_control.wf(),
        ensures
            r.wf(),
            r.admission() == access_control,
            r.connections() =~= Seq::<(String, String)>::empty(),
    {
        ConnectionManager { access_control, active_connections: Vec::new() }
    }

    /// Index of the peer's binding, if any.
    fn find_peer(&self, peer_id: &str) -> (r: Option<usize>)
        requires
            self.wf(),
        ensures
            r matches Some(i) ==> i < self.connections().len() && self.connections()[
                i as int
            ].0@ == peer_id@ && self.connected(peer_id@),
            r is None <==> !self.connected(peer_id@),
    {
        let n = self.active_connections.len();
        let mut i: usize = 0;
        while i < n
            invariant
                self.wf(),
                n == self.active_connections@.len(),
                i <= n,
                forall|j: int|
                    0 <= j < i ==> (#[trigger] self.active_connections@[j].0)@ != peer_id@,
            decreases n - i,
        {
            if str_eq_chars(self.active_connections[i].0.as_str(), peer_id) {
                return Some(i);
            }
            i += 1;
        }
        None
    }

    /// Whether `peer_id` is currently connected (run-time check).
    pub fn is_connected(&self, peer_id: &str) -> (r: bool)
        requires
            self.wf(),
        ensures
            r == self.connected(peer_id@),
    {
        self.find_peer(peer_id).is_some()
    }

    /// Admit an incoming connection: count it against the address, check
    /// the peer policy, and record the binding. On a policy refusal the
    /// address count stays taken, mirroring the admission order of the
    /// access control; it is released when the transport reports the close.
    pub fn handle_incoming_connection(
        &mut self,
        peer_id: &str,
        remote_addr: &str,
        whitelist: Option<&PeerWhitelist>,
        now: i64,
    ) -> (r: Result<(), AdmissionError>)
        requires
            old(self).wf(),
            whitelist matches Some(w) ==> w.wf(),
            old(self).admission().attached() ==> whitelist is Some,
        ensures
            final(self).wf(),
            final(self).admission().cfg() == old(self).admission().cfg(),
            final(self).admission().attached() == old(self).admission().attached(),
            r is Ok <==> old(self).admission().ip_count(remote_addr@) < old(
                self,
            ).admission().cfg().max_connections_per_ip && peer_allowed(
                old(self).admission().cfg(),
                old(self).admission().attached(),
                opt_wl(whitelist),
                peer_id@,
                now as int,
            ),
            r == Err::<(), AdmissionError>(AdmissionError::ConnectionLimitExceeded) <==> old(
                self,
            ).admission().ip_count(remote_addr@) >= old(self).admission().cfg().max_connections_per_ip,
            r == Err::<(), AdmissionError>(AdmissionError::PeerBlocked) <==> old(
                self,
            ).admission().ip_count(remote_addr@) < old(
                self,
            ).admission().cfg().max_connections_per_ip && id_listed(
                old(self).admission().cfg().blocked_peers@,
                peer_id@,
            ),
            old(self).admission().attached() ==> (r == Err::<(), AdmissionError>(
                AdmissionError::PeerNotWhitelisted,
            ) <==> old(self).admission().ip_count(remote_addr@) < old(
                self,
            ).admission().cfg().max_connections_per_ip && !id_listed(
                old(self).admission().cfg().blocked_peers@,
                peer_id@,
            ) && !wl_active(opt_wl(whitelist), peer_id@, now as int)),
            !old(self).admission().attached() ==> (r == Err::<(), AdmissionError>(
                AdmissionError::PeerNotAllowed,
            ) <==> old(self).admission().ip_count(remote_addr@) < old(
                self,
            ).admission().cfg().max_connections_per_ip && !id_listed(
                old(self).admission().cfg().blocked_peers@,
                peer_id@,
            ) && (old(self).admission().cfg().allowed_peers matches Some(l) && !id_listed(
                l@,
                peer_id@,
            ))),
            r is Err ==> final(self).connections() == old(self).connections(),
            r is Ok ==> final(self).connections().len() >= 1 && final(self).connections().last().0@ == peer_id@ && final(self).connections().last().1@
                == remote_addr@,
            r is Ok && !old(self).connected(peer_id@) ==> final(self).connections().drop_last()
                == old(self).connections(),
            r is Ok ==> final(self).admission().ip_count(remote_addr@) == old(self).admission().ip_count(
                remote_addr@,
            ) + 1,
            r is Ok ==> final(self).connected(peer_id@),
            forall|q: Seq<char>|
                q != remote_addr@ ==> #[trigger] final(self).admission().ip_count(q) == old(
                    self,
                ).admission().ip_count(q),
    {
        let limit = self.access_control.check_connection_limit(remote_addr);
        if let Err(e) = limit {
            return Err(e);
        }
        let allowed = self.access_control.check_peer_allowed(peer_id, whitelist, now);
        if let Err(e) = allowed {
            return Err(e);
        }
        let ghost pre = self.active_connections@;
        let found = self.find_peer(peer_id);
        if let Some(i) = found {
            // a reconnecting peer replaces its old binding
            self.active_connections.remove(i);
            proof {
                pre.remove_ensures(i as int);
                assert forall|a: int, b: int|
                    0 <= a < b < self.active_connections@.len() implies (
                #[trigger] self.active_connections@[a].0)@ != (
                #[trigger] self.active_connections@[b].0)@ by {
                    let a0 = if a < i {
                        a
                    } else {
                        a + 1
                    };
                    let b0 = if b < i {
                        b
                    } else {
                        b + 1
                    };
                    assert(self.active_connections@[a] == pre[a0]);
                    assert(self.active_connections@[b] == pre[b0]);
                    assert(pre[a0].0@ != pre[b0].0@);
                }
                assert forall|k: int|
                    0 <= k < self.active_connections@.len() implies (
                #[trigger] self.active_connections@[k].0)@ != peer_id@ by {
                    let k0 = if k < i {
                        k
                    } else {
                        k + 1
                    };
                    assert(self.active_connections@[k] == pre[k0]);
                    if pre[k0].0@ == peer_id@ {
                        if k0 < i {
                            assert(pre[k0].0@ != pre[i as int].0@);
                        } else {
                            assert(pre[i as int].0@ != pre[k0].0@);
                        }
                    }
                }
            }
        }
        self.active_connections.push((peer_id.to_owned(), remote_addr.to_owned()));
        proof {
            let m = self.active_connections@.len();
            assert forall|a: int, b: int|
                0 <= a < b < m implies (#[trigger] self.active_connections@[a].0)@ != (
            #[trigger] self.active_connections@[b].0)@ by {}
            assert(self.connections()[m - 1].0@ == peer_id@);
        }
        Ok(())
    }

    /// Forget a closed connection and release its address counter.
    pub fn handle_connection_closed(&mut self, peer_id: &str)
        requires
            old(self).wf(),
        ensures
            final(self).wf(),
            final(self).admission().cfg() == old(self).admission().cfg(),
            final(self).admission().attached() == old(self).admission().attached(),
            !final(self).connected(peer_id@),
            old(self).connected(peer_id@) ==> ({
                let i = choose|i: int|
                    0 <= i < old(self).connections().len() && (#[trigger] old(
                        self,
                    ).connections()[i].0)@ == peer_id@;
                final(self).connections() == old(self).connections().remove(i) && final(self).admission().ip_count(old(self).connections()[i].1@) == (if old(self).admission().ip_count(
                    old(self).connections()[i].1@,
                ) > 0 {
                    old(self).admission().ip_count(old(self).connections()[i].1@) - 1
                } else {
                    0int
                })
            }),
            !old(self).connected(peer_id@) ==> *final(self) == *old(self),
    {
        let found = self.find_peer(peer_id);
        match found {
            Option::Some(i) => {
                let ghost pre = self.active_connections@;
                proof {
                    let j = choose|j: int|
                        0 <= j < pre.len() && (#[trigger] pre[j].0)@ == peer_id@;
                    if j != i {
                        if j < i {
                            assert(pre[j].0@ != pre[i as int].0@);
                        } else {
                            assert(pre[i as int].0@ != pre[j].0@);
                        }
                    }
                }
                let row = self.active_connections.remove(i);
                self.access_control.release_connection(row.1.as_str());
                proof {
                    pre.remove_ensures(i as int);
                    assert forall|a: int, b: int|
                        0 <= a < b < self.active_connections@.len() implies (
                    #[trigger] self.active_connections@[a].0)@ != (
                    #[trigger] self.active_connections@[b].0)@ by {
                        let a0 = if a < i {
                            a
                        } else {
                            a + 1
                        };
                        let b0 = if b < i {
                            b
                        } else {
                            b + 1
                        };
                        assert(self.active_connections@[a] == pre[a0]);
                        assert(self.active_connections@[b] == pre[b0]);
                        assert(pre[a0].0@ != pre[b0].0@);
                    }
                    assert forall|k: int|
                        0 <= k < self.active_connections@.len() implies (
                    #[trigger] self.active_connections@[k].0)@ != peer_id@ by {
                        let k0 = if k < i {
                            k
                        } else {
                            k + 1
                        };
                        assert(self.active_connections@[k] == pre[k0]);
                        if pre[k0].0@ == peer_id@ {
                            if k0 < i {
                                assert(pre[k0].0@ != pre[i as int].0@);
                            } else {
                                assert(pre[i as int].0@ != pre[k0].0@);
                            }
                        }
                    }
                }
            },
            Option::None => {
            },
        }
    }

    /// The live bindings as (peer, address) pairs.
    pub fn get_active_connections(&self) -> (r: Vec<(String, String)>)
        requires
            self.wf(),
        ensures
            r@.len() == self.connections().len(),
            forall|i: int|
                0 <= i < r@.len() ==> (#[trigger] r@[i]).0 == self.connections()[i].0 && r@[i].1
                    == self.connections()[i].1,
    {
        let n = self.active_connections.len();
        let mut r: Vec<(String, String)> = Vec::new();
        let mut i: usize = 0;
        while i < n
            invariant
                self.wf(),
                n == self.active_connections@.len(),
                i <= n,
                r@.len() == i,
                forall|k: int|
                    0 <= k < i ==> (#[trigger] r@[k]).0 == self.active_connections@[k].0
                        && r@[k].1 == self.active_connections@[k].1,
            decreases n - i,
        {
            let pair = (self.active_connections[i].0.clone(), self.active_connections[i].1.clone());
            r.push(pair);
            i += 1;
        }
        r
    }

    /// How many peers are connected.
    pub fn get_connection_count(&self) -> (r: usize)
        ensures
            r == self.connections().len(),
    {
        self.active_connections.len()
    }
}

} // verus!
