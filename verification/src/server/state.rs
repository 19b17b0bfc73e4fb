use vstd::prelude::*;
use vstd::string::*;

use crate::server::wsbonzoendpoint::{can_send, EndpointView, WsBonzoEndpoint};

verus! {

/// No key occurs twice in the association list `s`.
pub open spec fn keys_distinct<K, V>(s: Seq<(K, V)>) -> bool {
    forall|i: int, j: int| 0 <= i < s.len() && 0 <= j < s.len() && i != j ==> s[i].0 != s[j].0
}

/// `k` is a key of the association list `s`.
pub open spec fn has_key<K, V>(s: Seq<(K, V)>, k: K) -> bool {
    exists|i: int| 0 <= i < s.len() && s[i].0 == k
}

/// The map an association list stands for.
pub open spec fn to_map<K, V>(s: Seq<(K, V)>) -> Map<K, V> {
    Map::new(|k: K| has_key(s, k), |k: K| s[choose|i: int| 0 <= i < s.len() && s[i].0 == k].1)
}

proof fn lemma_to_map_index<K, V>(s: Seq<(K, V)>, i: int)
    requires
        keys_distinct(s),
        0 <= i < s.len(),
    ensures
        to_map(s).contains_key(s[i].0),
        to_map(s)[s[i].0] == s[i].1,
{
    assert(has_key(s, s[i].0));
    let j = choose|j: int| 0 <= j < s.len() && s[j].0 == s[i].0;
    assert(j == i);
}

proof fn lemma_to_map_push<K, V>(s: Seq<(K, V)>, k: K, v: V)
    requires
        keys_distinct(s),
        !has_key(s, k),
    ensures
        keys_distinct(s.push((k, v))),
        to_map(s.push((k, v))) == to_map(s).insert(k, v),
{
    let t = s.push((k, v));
    assert forall|i: int, j: int| 0 <= i < t.len() && 0 <= j < t.len() && i != j implies t[i].0
        != t[j].0 by {
        if i < s.len() && j < s.len() {
        } else if i < s.len() {
            assert(s[i].0 != k);
        } else {
            assert(s[j].0 != k);
        }
    }
    assert forall|x: K| #[trigger] has_key(t, x) == (has_key(s, x) || x == k) by {
        if has_key(s, x) {
            let i = choose|i: int| 0 <= i < s.len() && s[i].0 == x;
            assert(t[i].0 == x);
        }
        if x == k {
            assert(t[s.len() as int].0 == x);
        }
        if has_key(t, x) {
            let i = choose|i: int| 0 <= i < t.len() && t[i].0 == x;
            if i < s.len() {
                assert(s[i].0 == x);
            }
        }
    }
    assert forall|x: K| #[trigger] to_map(t).contains_key(x) implies to_map(t)[x] == to_map(s).insert(
        k,
        v,
    )[x] by {
        let i = choose|i: int| 0 <= i < t.len() && t[i].0 == x;
        lemma_to_map_index(t, i);
        if i < s.len() {
            assert(s[i] == t[i]);
            lemma_to_map_index(s, i);
        }
    }
    assert(to_map(t) =~= to_map(s).insert(k, v));
}

proof fn lemma_to_map_remove<K, V>(s: Seq<(K, V)>, i: int)
    requires
        keys_distinct(s),
        0 <= i < s.len(),
    ensures
        keys_distinct(s.remove(i)),
        to_map(s.remove(i)) == to_map(s).remove(s[i].0),
{
    let t = s.remove(i);
    assert forall|a: int| 0 <= a < t.len() implies #[trigger] t[a] == (if a < i {
        s[a]
    } else {
        s[a + 1]
    }) by {}
    assert forall|a: int, b: int| 0 <= a < t.len() && 0 <= b < t.len() && a != b implies t[a].0
        != t[b].0 by {
        let a2 = if a < i { a } else { a + 1 };
        let b2 = if b < i { b } else { b + 1 };
        assert(t[a] == s[a2]);
        assert(t[b] == s[b2]);
    }
    assert forall|x: K| #[trigger] has_key(t, x) == (has_key(s, x) && x != s[i].0) by {
        if has_key(t, x) {
            let a = choose|a: int| 0 <= a < t.len() && t[a].0 == x;
            let a2 = if a < i { a } else { a + 1 };
            assert(t[a] == s[a2]);
            assert(a2 != i);
        }
        if has_key(s, x) && x != s[i].0 {
            let a2 = choose|a: int| 0 <= a < s.len() && s[a].0 == x;
            let a = if a2 < i { a2 } else { a2 - 1 };
            assert(t[a] == s[a2]);
        }
    }
    assert forall|x: K| #[trigger] to_map(t).contains_key(x) implies to_map(t)[x] == to_map(s)[x] by {
        let a = choose|a: int| 0 <= a < t.len() && t[a].0 == x;
        let a2 = if a < i { a } else { a + 1 };
        assert(t[a] == s[a2]);
        lemma_to_map_index(t, a);
        lemma_to_map_index(s, a2);
    }
    assert(to_map(t) =~= to_map(s).remove(s[i].0));
}

/// The endpoints that a list of endpoints names.
pub open spec fn endpoint_views(v: Seq<WsBonzoEndpoint>) -> Seq<EndpointView> {
    v.map_values(|e: WsBonzoEndpoint| e@)
}

/// Every endpoint that is taken is taken by a connected peer of that very
/// endpoint.
pub open spec fn locks_held_by_owners(
    peers: Map<u64, EndpointView>,
    locks: Map<EndpointView, u64>,
) -> bool {
    forall|e: EndpointView| #[trigger]
        locks.contains_key(e) ==> peers.contains_key(locks[e]) && peers[locks[e]] == e
}

/// A message of peer `id` is refused: its endpoint is taken by another
/// peer.
pub open spec fn refused(peers: Map<u64, EndpointView>, locks: Map<EndpointView, u64>, id: u64) -> bool {
    locks.contains_key(peers[id]) && locks[peers[id]] != id
}

/// Peer `p` receives what peer `id` sends: it is another connected peer,
/// whose endpoint listens to that of `id`.
pub open spec fn is_listener(peers: Map<u64, EndpointView>, id: u64, p: u64) -> bool {
    peers.contains_key(p) && p != id && can_send(peers[id], peers[p])
}

/// The taken endpoints once peer `id` has left: the endpoint it had taken
/// is free.
pub open spec fn locks_after_leave(
    peers: Map<u64, EndpointView>,
    locks: Map<EndpointView, u64>,
    id: u64,
) -> Map<EndpointView, u64> {
    if peers.contains_key(id) && locks.contains_key(peers[id]) && locks[peers[id]] == id {
        locks.remove(peers[id])
    } else {
        locks
    }
}

/// One sender per endpoint, first come first served: while peer `a` holds
/// its endpoint, another peer `b` of the same endpoint is refused and `a` is
/// not; once `a` has left, `b` is no longer refused.
pub proof fn law_one_sender_per_endpoint(
    peers: Map<u64, EndpointView>,
    locks: Map<EndpointView, u64>,
    a: u64,
    b: u64,
)
    requires
        locks_held_by_owners(peers, locks),
        peers.contains_key(a),
        peers.contains_key(b),
        a != b,
        peers[a] == peers[b],
        locks.contains_key(peers[a]),
        locks[peers[a]] == a,
    ensures
        refused(peers, locks, b),
        !refused(peers, locks, a),
        !refused(peers.remove(a), locks_after_leave(peers, locks, a), b),
{
    assert(peers.remove(a)[b] == peers[b]);
}

/// A peer leaving frees only what it held: every endpoint taken by another
/// peer stays taken by that same peer, and, with every taken endpoint held
/// by a connected peer of it, the endpoints still taken are exactly those
/// held by the other peers.
pub proof fn law_leave_keeps_other_locks(
    peers: Map<u64, EndpointView>,
    locks: Map<EndpointView, u64>,
    id: u64,
)
    ensures
        forall|e: EndpointView|
            #![trigger locks_after_leave(peers, locks, id).contains_key(e)]
            locks.contains_key(e) && locks[e] != id ==> locks_after_leave(
                peers,
                locks,
                id,
            ).contains_key(e) && locks_after_leave(peers, locks, id)[e] == locks[e],
        locks_held_by_owners(peers, locks) ==> forall|e: EndpointView|
            #![trigger locks_after_leave(peers, locks, id).contains_key(e)]
            locks_after_leave(peers, locks, id).contains_key(e) <==> (locks.contains_key(e)
                && locks[e] != id),
{
    let after = locks_after_leave(peers, locks, id);
    assert forall|e: EndpointView| locks.contains_key(e) && locks[e] != id implies #[trigger] after.contains_key(
        e,
    ) && after[e] == locks[e] by {}
    if locks_held_by_owners(peers, locks) {
        assert forall|e: EndpointView| #[trigger] after.contains_key(e) implies (locks.contains_key(e)
            && locks[e] != id) by {
            if locks[e] == id {
                assert(peers[id] == e);
            }
        }
    }
}

/// Leaving keeps every taken endpoint held by a connected peer of that
/// endpoint, and the peer that left holds none.
pub proof fn law_leave(peers: Map<u64, EndpointView>, locks: Map<EndpointView, u64>, id: u64)
    requires
        locks_held_by_owners(peers, locks),
    ensures
        locks_held_by_owners(peers.remove(id), locks_after_leave(peers, locks, id)),
        forall|e: EndpointView| #[trigger]
            locks_after_leave(peers, locks, id).contains_key(e) ==> locks_after_leave(
                peers,
                locks,
                id,
            )[e] != id,
{
    let after = locks_after_leave(peers, locks, id);
    assert forall|e: EndpointView| #[trigger] after.contains_key(e) implies after[e] != id && peers.remove(
        id,
    ).contains_key(after[e]) && peers.remove(id)[after[e]] == e by {
        assert(locks.contains_key(e) && after[e] == locks[e]);
        if locks[e] == id {
            assert(peers[id] == e);
        }
    }
}

/// Taking an endpoint keeps every taken endpoint held by a connected peer
/// of that endpoint.
pub proof fn law_take(peers: Map<u64, EndpointView>, locks: Map<EndpointView, u64>, id: u64)
    requires
        locks_held_by_owners(peers, locks),
        peers.contains_key(id),
    ensures
        locks_held_by_owners(peers, locks.insert(peers[id], id)),
{
}

/// Who receives a sender's messages: every other peer that listens to the
/// whole room of the sender, and every other peer on the sender's own
/// endpoint; nobody in another room, nor on another handle.
pub proof fn law_listeners(peers: Map<u64, EndpointView>, id: u64, p: u64)
    requires
        peers.contains_key(id),
        peers.contains_key(p),
        p != id,
    ensures
        peers[p] == (peers[id].0, None::<Seq<char>>) ==> is_listener(peers, id, p),
        peers[p] == peers[id] ==> is_listener(peers, id, p),
        peers[p].0 != peers[id].0 ==> !is_listener(peers, id, p),
        peers[p].1 is Some && peers[p].1 != peers[id].1 ==> !is_listener(peers, id, p),
{
}

/// The bookkeeping of the broadcast server: the endpoint of each connected
/// peer (peers are named by a number the caller gives each connection),
/// and which peer sends on each endpoint that is taken.
pub struct ServerState {
    peers: Vec<(u64, WsBonzoEndpoint)>,
    locks: Vec<(WsBonzoEndpoint, u64)>,
}

impl ServerState {
    closed spec fn peer_seq(&self) -> Seq<(u64, EndpointView)> {
        self.peers@.map_values(|p: (u64, WsBonzoEndpoint)| (p.0, p.1@))
    }

    closed spec fn lock_seq(&self) -> Seq<(EndpointView, u64)> {
        self.locks@.map_values(|l: (WsBonzoEndpoint, u64)| (l.0@, l.1))
    }

    /// The endpoint of each connected peer.
    pub closed spec fn peer_map(&self) -> Map<u64, EndpointView> {
        to_map(self.peer_seq())
    }

    /// The peer that sends on each taken endpoint.
    pub closed spec fn lock_map(&self) -> Map<EndpointView, u64> {
        to_map(self.lock_seq())
    }

    /// The state is well formed.
    pub closed spec fn wf(&self) -> bool {
        &&& keys_distinct(self.peer_seq())
        &&& keys_distinct(self.lock_seq())
        &&& locks_held_by_owners(self.peer_map(), self.lock_map())
    }

    /// In a well-formed state every taken endpoint is taken by a connected
    /// peer of that endpoint.
    pub proof fn law_locks_held_by_owners(&self)
        requires
            self.wf(),
        ensures
            locks_held_by_owners(self.peer_map(), self.lock_map()),
    {
    }

    /// No peer and no taken endpoint.
    pub fn new() -> (r: Self)
        ensures
            r.wf(),
            r.peer_map() == Map::<u64, EndpointView>::empty(),
            r.lock_map() == Map::<EndpointView, u64>::empty(),
    {
        let r = ServerState { peers: Vec::new(), locks: Vec::new() };
        assert(r.peer_seq() =~= Seq::empty());
        assert(r.lock_seq() =~= Seq::empty());
        assert(r.peer_map() =~= Map::empty());
        assert(r.lock_map() =~= Map::empty());
        r
    }

    fn find_peer(&self, id: u64) -> (r: Option<usize>)
        requires
            self.wf(),
        ensures
            match r {
                Some(i) => i < self.peers@.len() && self.peers@[i as int].0 == id
                    && self.peer_map().contains_key(id) && self.peer_map()[id]
                    == self.peers@[i as int].1@,
                None => !self.peer_map().contains_key(id),
            },
    {
        let n = self.peers.len();
        for i in 0..n
            invariant
                n == self.peers@.len(),
                self.wf(),
                forall|j: int| 0 <= j < i ==> self.peers@[j].0 != id,
        {
            if self.peers[i].0 == id {
                proof {
                    assert(self.peer_seq()[i as int] == (id, self.peers@[i as int].1@));
                    lemma_to_map_index(self.peer_seq(), i as int);
                }
                return Some(i);
            }
        }
        proof {
            if has_key(self.peer_seq(), id) {
                let j = choose|j: int| 0 <= j < self.peer_seq().len() && self.peer_seq()[j].0 == id;
                assert(self.peer_seq()[j].0 == self.peers@[j].0);
            }
        }
        None
    }

    fn find_lock(&self, ep: &WsBonzoEndpoint) -> (r: Option<usize>)
        requires
            keys_distinct(self.lock_seq()),
        ensures
            match r {
                Some(i) => i < self.locks@.len() && self.locks@[i as int].0@ == ep@
                    && self.lock_map().contains_key(ep@) && self.lock_map()[ep@]
                    == self.locks@[i as int].1,
                None => !self.lock_map().contains_key(ep@),
            },
    {
        let n = self.locks.len();
        for i in 0..n
            invariant
                n == self.locks@.len(),
                keys_distinct(self.lock_seq()),
                forall|j: int| 0 <= j < i ==> self.locks@[j].0@ != ep@,
        {
            if self.locks[i].0.same_as(ep) {
                proof {
                    assert(self.lock_seq()[i as int] == (ep@, self.locks@[i as int].1));
                    lemma_to_map_index(self.lock_seq(), i as int);
                }
                return Some(i);
            }
        }
        proof {
            if has_key(self.lock_seq(), ep@) {
                let j = choose|j: int|
                    0 <= j < self.lock_seq().len() && self.lock_seq()[j].0 == ep@;
                assert(self.lock_seq()[j].0 == self.locks@[j].0@);
            }
        }
        None
    }

    /// Whether the peer is connected.
    pub fn is_connected(&self, id: u64) -> (r: bool)
        requires
            self.wf(),
        ensures
            r == self.peer_map().contains_key(id),
    {
        self.find_peer(id).is_some()
    }

    /// Registers a new peer on its endpoint; no endpoint is taken by it yet.
    pub fn connect(&mut self, id: u64, endpoint: WsBonzoEndpoint)
        requires
            old(self).wf(),
            !old(self).peer_map().contains_key(id),
        ensures
            final(self).wf(),
            final(self).peer_map() == old(self).peer_map().insert(id, endpoint@),
            final(self).lock_map() == old(self).lock_map(),
    {
        let ghost old_seq = self.peer_seq();
        let ghost ev = endpoint@;
        self.peers.push((id, endpoint));
        proof {
            assert(self.peer_seq() =~= old_seq.push((id, ev)));
            lemma_to_map_push(old_seq, id, ev);
            assert(self.lock_seq() == old(self).lock_seq());
        }
    }
    /// A message from a connected peer. Each endpoint has one sender at a
    /// time, the first to send on it: a peer whose endpoint is taken by
    /// another peer is refused (`Err`, and nothing changes). Otherwise the
    /// peer takes its endpoint, and the result lists the other peers whose
    /// endpoint receives what it sends, each once.
    pub fn on_message(&mut self, id: u64) -> (r: Result<Vec<u64>, ()>)
        requires
            old(self).wf(),
            old(self).peer_map().contains_key(id),
        ensures
            final(self).wf(),
            final(self).peer_map() == old(self).peer_map(),
            r is Err <==> refused(old(self).peer_map(), old(self).lock_map(), id),
            r is Err ==> final(self).lock_map() == old(self).lock_map(),
            r matches Ok(rs) ==> {
                &&& final(self).lock_map() == old(self).lock_map().insert(
                    old(self).peer_map()[id],
                    id,
                )
                &&& rs@.no_duplicates()
                &&& forall|p: u64|
                    #![trigger rs@.contains(p)]
                    rs@.contains(p) <==> is_listener(old(self).peer_map(), id, p)
            },
    {
        let pi = self.find_peer(id).unwrap();
        let ep = self.peers[pi].1.duplicate();
        let ghost epv = ep@;
        match self.find_lock(&ep) {
            Some(li) => {
                if self.locks[li].1 != id {
                    return Err(());
                }
            },
            None => {
                let ghost old_seq = self.lock_seq();
                self.locks.push((ep.duplicate(), id));
                proof {
                    assert(self.lock_seq() =~= old_seq.push((epv, id)));
                    lemma_to_map_push(old_seq, epv, id);
                    assert(self.peer_seq() == old(self).peer_seq());
                }
            },
        }
        assert(self.lock_map() == old(self).lock_map().insert(epv, id));
        let n = self.peers.len();
        let mut rs: Vec<u64> = Vec::new();
        for i in 0..n
            invariant
                n == self.peers@.len(),
                self.wf(),
                self.peer_map() == old(self).peer_map(),
                epv == ep@,
                epv == old(self).peer_map()[id],
                pi < n,
                self.peers@[pi as int].0 == id,
                rs@.no_duplicates(),
                forall|p: u64|
                    #![trigger rs@.contains(p)]
                    rs@.contains(p) <==> exists|j: int|
                        0 <= j < i && self.peers@[j].0 == p && p != id && can_send(
                            epv,
                            self.peers@[j].1@,
                        ),
        {
            let ghost old_rs = rs@;
            let pid = self.peers[i].0;
            if pid != id && ep.can_send_to(&self.peers[i].1) {
                proof {
                    assert forall|j: int| 0 <= j < i implies self.peers@[j].0 != pid by {
                        assert(self.peer_seq()[j].0 == self.peers@[j].0);
                        assert(self.peer_seq()[i as int].0 == self.peers@[i as int].0);
                    }
                }
                assert(!old_rs.contains(pid));
                rs.push(pid);
                proof {
                    assert forall|a: int, b: int|
                        0 <= a < rs@.len() && 0 <= b < rs@.len() && a != b implies rs@[a]
                        != rs@[b] by {
                        if a == rs@.len() - 1 {
                            assert(old_rs.contains(rs@[b]));
                        } else if b == rs@.len() - 1 {
                            assert(old_rs.contains(rs@[a]));
                        } else {
                            assert(rs@[a] == old_rs[a] && rs@[b] == old_rs[b]);
                        }
                    }
                    assert forall|p: u64| #![trigger rs@.contains(p)]
                        rs@.contains(p) <==> exists|j: int|
                            0 <= j < i + 1 && self.peers@[j].0 == p && p != id && can_send(
                                epv,
                                self.peers@[j].1@,
                            ) by {
                        if rs@.contains(p) && p != pid {
                            assert(old_rs.contains(p));
                        }
                        if p == pid {
                            assert(rs@[rs@.len() - 1] == p);
                        }
                        if exists|j: int|
                            0 <= j < i + 1 && self.peers@[j].0 == p && p != id && can_send(
                                epv,
                                self.peers@[j].1@,
                            ) {
                            let j = choose|j: int|
                                0 <= j < i + 1 && self.peers@[j].0 == p && p != id && can_send(
                                    epv,
                                    self.peers@[j].1@,
                                );
                            if j < i {
                                assert(old_rs.contains(p));
                                assert(rs@ == old_rs.push(pid));
                                let k = choose|k: int| 0 <= k < old_rs.len() && old_rs[k] == p;
                                assert(rs@[k] == p);
                            }
                        }
                    }
                }
            } else {
                proof {
                    assert forall|p: u64| #![trigger rs@.contains(p)]
                        rs@.contains(p) <==> exists|j: int|
                            0 <= j < i + 1 && self.peers@[j].0 == p && p != id && can_send(
                                epv,
                                self.peers@[j].1@,
                            ) by {
                        if exists|j: int|
                            0 <= j < i + 1 && self.peers@[j].0 == p && p != id && can_send(
                                epv,
                                self.peers@[j].1@,
                            ) {
                            let j = choose|j: int|
                                0 <= j < i + 1 && self.peers@[j].0 == p && p != id && can_send(
                                    epv,
                                    self.peers@[j].1@,
                                );
                            if j == i {
                                assert(false);
                            }
                        }
                    }
                }
            }
        }
        proof {
            assert forall|p: u64| #![trigger rs@.contains(p)]
                rs@.contains(p) <==> (old(self).peer_map().contains_key(p) && p != id && can_send(
                    epv,
                    old(self).peer_map()[p],
                )) by {
                if rs@.contains(p) {
                    let j = choose|j: int|
                        0 <= j < n && self.peers@[j].0 == p && p != id && can_send(
                            epv,
                            self.peers@[j].1@,
                        );
                    assert(self.peer_seq()[j] == (p, self.peers@[j].1@));
                    lemma_to_map_index(self.peer_seq(), j);
                }
                if old(self).peer_map().contains_key(p) && p != id && can_send(
                    epv,
                    old(self).peer_map()[p],
                ) {
                    let j = choose|j: int|
                        0 <= j < self.peer_seq().len() && self.peer_seq()[j].0 == p;
                    assert(self.peer_seq()[j] == (self.peers@[j].0, self.peers@[j].1@));
                    lemma_to_map_index(self.peer_seq(), j);
                }
            }
        }
        Ok(rs)
    }
    /// A peer leaves: it is no longer connected, and the endpoint it had
    /// taken, if any, is free again.
    pub fn disconnect(&mut self, id: u64)
        requires
            old(self).wf(),
        ensures
            final(self).wf(),
            final(self).peer_map() == old(self).peer_map().remove(id),
            final(self).lock_map() == locks_after_leave(
                old(self).peer_map(),
                old(self).lock_map(),
                id,
            ),
            forall|e: EndpointView| #[trigger]
                final(self).lock_map().contains_key(e) ==> final(self).lock_map()[e] != id,
            forall|e: EndpointView|
                #![trigger final(self).lock_map().contains_key(e)]
                old(self).lock_map().contains_key(e) && old(self).lock_map()[e] != id
                    ==> final(self).lock_map().contains_key(e) && final(self).lock_map()[e]
                    == old(self).lock_map()[e],
    {
        match self.find_peer(id) {
            None => {
                assert(old(self).peer_map().remove(id) =~= old(self).peer_map());
            },
            Some(pi) => {
                let ep = self.peers[pi].1.duplicate();
                let ghost old_peers = self.peer_seq();
                let ghost old_locks = self.lock_seq();
                self.peers.remove(pi);
                proof {
                    assert(self.peer_seq() =~= old_peers.remove(pi as int));
                    lemma_to_map_remove(old_peers, pi as int);
                    assert(self.lock_seq() == old_locks);
                }
                match self.find_lock(&ep) {
                    Some(li) => {
                        if self.locks[li].1 == id {
                            self.locks.remove(li);
                            proof {
                                assert(self.lock_seq() =~= old_locks.remove(li as int));
                                lemma_to_map_remove(old_locks, li as int);
                            }
                        }
                    },
                    None => {},
                }
            },
        }
    }

    /// The taken endpoints of a room, each once; every taken endpoint when
    /// the room is empty.
    pub fn endpoints_in_room(&self, room: &String) -> (r: Vec<WsBonzoEndpoint>)
        requires
            self.wf(),
        ensures
            endpoint_views(r@).no_duplicates(),
            forall|e: EndpointView| #[trigger]
                endpoint_views(r@).contains(e) <==> (
                self.lock_map().contains_key(e) && (room@.len() == 0 || e.0 == room@)),
    {
        let n = self.locks.len();
        let all = room.as_str().unicode_len() == 0;
        let mut r: Vec<WsBonzoEndpoint> = Vec::new();
        for i in 0..n
            invariant
                n == self.locks@.len(),
                self.wf(),
                all == (room@.len() == 0),
                endpoint_views(r@).no_duplicates(),
                forall|e: EndpointView| #[trigger]
                    endpoint_views(r@).contains(e) <==> exists|j: int|
                        0 <= j < i && self.locks@[j].0@ == e && (room@.len() == 0 || e.0
                            == room@),
        {
            let ghost old_r = endpoint_views(r@);
            let ghost ev = self.locks@[i as int].0@;
            if all || self.locks[i].0.room == *room {
                proof {
                    assert forall|j: int| 0 <= j < i implies self.locks@[j].0@ != ev by {
                        assert(self.lock_seq()[j].0 == self.locks@[j].0@);
                        assert(self.lock_seq()[i as int].0 == ev);
                    }
                    assert(!old_r.contains(ev));
                }
                r.push(self.locks[i].0.duplicate());
                proof {
                    let nr = endpoint_views(r@);
                    assert(nr =~= old_r.push(ev));
                    assert forall|a: int, b: int|
                        0 <= a < nr.len() && 0 <= b < nr.len() && a != b implies nr[a]
                        != nr[b] by {
                        if a == nr.len() - 1 {
                            assert(old_r.contains(nr[b]));
                        } else if b == nr.len() - 1 {
                            assert(old_r.contains(nr[a]));
                        }
                    }
                    assert(ev.0 == self.locks@[i as int].0.room@);
                    assert(room@.len() == 0 || ev.0 == room@);
                    assert forall|e: EndpointView| #[trigger]
                        nr.contains(e) <==> exists|j: int|
                            0 <= j < i + 1 && self.locks@[j].0@ == e && (room@.len() == 0 || e.0
                                == room@) by {
                        if nr.contains(e) && e != ev {
                            let k = choose|k: int| 0 <= k < nr.len() && nr[k] == e;
                            assert(k < old_r.len());
                            assert(old_r[k] == e);
                            assert(old_r.contains(e));
                        }
                        if e == ev {
                            assert(nr[nr.len() - 1] == e);
                            assert(self.locks@[i as int].0@ == e);
                        }
                        if exists|j: int|
                            0 <= j < i + 1 && self.locks@[j].0@ == e && (room@.len() == 0 || e.0
                                == room@) {
                            let j = choose|j: int|
                                0 <= j < i + 1 && self.locks@[j].0@ == e && (room@.len() == 0
                                    || e.0 == room@);
                            if j < i {
                                assert(old_r.contains(e));
                                let k = choose|k: int| 0 <= k < old_r.len() && old_r[k] == e;
                                assert(nr[k] == e);
                            }
                        }
                    }
                }
            } else {
                proof {
                    let nr = endpoint_views(r@);
                    assert forall|e: EndpointView| #[trigger]
                        nr.contains(e) <==> exists|j: int|
                            0 <= j < i + 1 && self.locks@[j].0@ == e && (room@.len() == 0 || e.0
                                == room@) by {
                        if exists|j: int|
                            0 <= j < i + 1 && self.locks@[j].0@ == e && (room@.len() == 0 || e.0
                                == room@) {
                            let j = choose|j: int|
                                0 <= j < i + 1 && self.locks@[j].0@ == e && (room@.len() == 0
                                    || e.0 == room@);
                            assert(j != i);
                        }
                    }
                }
            }
        }
        proof {
            let nr = endpoint_views(r@);
            assert forall|e: EndpointView| #[trigger]
                nr.contains(e) <==> (self.lock_map().contains_key(e) && (room@.len() == 0 || e.0
                    == room@)) by {
                if nr.contains(e) {
                    let j = choose|j: int|
                        0 <= j < n && self.locks@[j].0@ == e && (room@.len() == 0 || e.0
                            == room@);
                    assert(self.lock_seq()[j].0 == e);
                }
                if self.lock_map().contains_key(e) && (room@.len() == 0 || e.0 == room@) {
                    let j = choose|j: int|
                        0 <= j < self.lock_seq().len() && self.lock_seq()[j].0 == e;
                    assert(self.lock_seq()[j].0 == self.locks@[j].0@);
                }
            }
        }
        r
    }
}

} // verus!
