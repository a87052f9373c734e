use vstd::prelude::*;
use crate::text::{push_str, repeat, repeat_str};

verus! {

/// The address of a peer: its IP address as a number (IPv4 addresses in the low 32 bits), whether
/// it is an IPv6 address, its port, and for IPv6 its flow label and scope id.
#[derive(Debug, PartialEq, Eq, Structural, Clone, Copy)]
pub struct PeerAddr {
    pub ip: u128,
    pub v6: bool,
    pub port: u16,
    /// The IPv6 flow label (0 for an IPv4 address).
    pub flowinfo: u32,
    /// The IPv6 scope id (0 for an IPv4 address).
    pub scope_id: u32,
}

/// A task on the shared board: who created it and its title.
pub struct Task {
    pub created_by: PeerAddr,
    pub title: String,
}

/// The tasks of the board, in the order they were added.
pub type Tasks = Vec<Task>;

pub fn add(left: usize, right: usize) -> (r: usize)
    requires
        left + right <= usize::MAX,
    ensures
        r == left + right,
{
    left + right
}

/// The board as the server keeps it: the connected peers with their senders, the tasks, and a
/// version that counts the messages handled.
///
/// The peers form a map from address to sender, kept as a list of pairs with each address once
/// (`peer_map` is the map it stands for). A `HashMap` keyed by `PeerAddr` would have nothing proved
/// of its lookups: vstd states what `HashMap` does only for key types it knows to hash and compare
/// deterministically (integers, `bool`, boxes of them), and a struct key would need an unproved
/// assumption. Nor does an address fit an integer key: its parts take 209 bits.
pub struct ServerState<T> {
    pub peers: Vec<(PeerAddr, T)>,
    pub tasks: Tasks,
    pub version: usize,
}

/// The map from peers to senders that a list of pairs stands for (a later pair wins).
pub open spec fn peer_map<T>(s: Seq<(PeerAddr, T)>) -> Map<PeerAddr, T>
    decreases s.len(),
{
    if s.len() == 0 {
        Map::empty()
    } else {
        peer_map(s.drop_last()).insert(s.last().0, s.last().1)
    }
}

pub open spec fn keys_unique<T>(s: Seq<(PeerAddr, T)>) -> bool {
    forall|i: int, j: int| 0 <= i < j < s.len() ==> s[i].0 != s[j].0
}

pub open spec fn task_views(s: Seq<Task>) -> Seq<(PeerAddr, Seq<char>)> {
    s.map_values(|t: Task| (t.created_by, t.title@))
}

proof fn lemma_peer_map<T>(s: Seq<(PeerAddr, T)>)
    requires
        keys_unique(s),
    ensures
        forall|k: PeerAddr| #[trigger] peer_map(s).contains_key(k) <==> exists|i: int| 0 <= i < s.len() && s[i].0 == k,
        forall|i: int| 0 <= i < s.len() ==> #[trigger] peer_map(s)[s[i].0] == s[i].1,
    decreases s.len(),
{
    if s.len() > 0 {
        let d = s.drop_last();
        lemma_peer_map(d);
        assert forall|k: PeerAddr| #[trigger] peer_map(s).contains_key(k) <==> exists|i: int| 0 <= i < s.len() && s[i].0 == k by {
            if peer_map(s).contains_key(k) {
                if k != s.last().0 {
                    assert(peer_map(d).contains_key(k));
                    let i = choose|i: int| 0 <= i < d.len() && d[i].0 == k;
                    assert(s[i].0 == k);
                } else {
                    assert(s[s.len() - 1].0 == k);
                }
            }
            if exists|i: int| 0 <= i < s.len() && s[i].0 == k {
                let i = choose|i: int| 0 <= i < s.len() && s[i].0 == k;
                if i < d.len() {
                    assert(d[i].0 == k);
                    assert(peer_map(d).contains_key(k));
                }
            }
        }
        assert forall|i: int| 0 <= i < s.len() implies #[trigger] peer_map(s)[s[i].0] == s[i].1 by {
            if i < d.len() {
                assert(d[i] == s[i]);
                assert(s[i].0 != s[s.len() - 1].0);
                assert(peer_map(d)[d[i].0] == d[i].1);
            }
        }
    }
}

fn find_peer<T>(peers: &Vec<(PeerAddr, T)>, addr: &PeerAddr) -> (r: Option<usize>)
    ensures
        match r {
            Some(i) => i < peers.len() && peers@[i as int].0 == *addr,
            None => forall|j: int| 0 <= j < peers.len() ==> peers@[j].0 != *addr,
        },
{
    let mut i: usize = 0;
    while i < peers.len()
        invariant
            i <= peers.len(),
            forall|j: int| 0 <= j < i ==> peers@[j].0 != *addr,
        decreases peers.len() - i,
    {
        if peers[i].0 == *addr {
            return Some(i);
        }
        i = i + 1;
    }
    None
}

impl<T> ServerState<T> {
    /// Peers are listed once each.
    pub open spec fn wf(&self) -> bool {
        keys_unique(self.peers@)
    }

    pub fn new() -> (s: Self)
        ensures
            s.wf(),
            peer_map(s.peers@) == Map::<PeerAddr, T>::empty(),
            s.tasks@.len() == 0,
            s.version == 0,
    {
        ServerState { peers: Vec::new(), tasks: Vec::new(), version: 0 }
    }

    /// Registers the sender of a newly connected peer, replacing any earlier one of the same address.
    pub fn add_peer(&mut self, addr: PeerAddr, tx: T)
        requires
            old(self).wf(),
        ensures
            final(self).wf(),
            peer_map(final(self).peers@) == peer_map(old(self).peers@).insert(addr, tx),
            task_views(final(self).tasks@) == task_views(old(self).tasks@),
            final(self).version == old(self).version,
    {
        proof {
            lemma_peer_map(self.peers@);
        }
        match find_peer(&self.peers, &addr) {
            Some(i) => {
                let ghost old_peers = self.peers@;
                self.peers.set(i, (addr, tx));
                proof {
                    assert forall|a: int, b: int| 0 <= a < b < self.peers@.len() implies self.peers@[a].0 != self.peers@[b].0 by {
                        assert(self.peers@[a].0 == old_peers[a].0);
                        assert(self.peers@[b].0 == old_peers[b].0);
                    }
                    lemma_peer_map(self.peers@);
                    assert(peer_map(self.peers@) =~= peer_map(old_peers).insert(addr, tx)) by {
                        assert forall|k: PeerAddr| peer_map(self.peers@).contains_key(k)
                            <==> #[trigger] peer_map(old_peers).insert(addr, tx).contains_key(k) by {
                            if peer_map(old_peers).contains_key(k) {
                                let j = choose|j: int| 0 <= j < old_peers.len() && old_peers[j].0 == k;
                                assert(self.peers@[j].0 == k);
                            }
                            if k == addr {
                                assert(self.peers@[i as int].0 == k);
                            }
                            if peer_map(self.peers@).contains_key(k) {
                                let j = choose|j: int| 0 <= j < self.peers@.len() && self.peers@[j].0 == k;
                                assert(old_peers[j].0 == k);
                            }
                        }
                        assert forall|k: PeerAddr| #[trigger] peer_map(self.peers@).contains_key(k)
                            implies peer_map(self.peers@)[k] == peer_map(old_peers).insert(addr, tx)[k] by {
                            let j = choose|j: int| 0 <= j < self.peers@.len() && self.peers@[j].0 == k;
                            assert(old_peers[j].0 == k);
                            if j != i {
                                assert(self.peers@[j] == old_peers[j]);
                            }
                        }
                    }
                }
            },
            None => {
                let ghost old_peers = self.peers@;
                self.peers.push((addr, tx));
                assert(self.peers@.drop_last() =~= old_peers);
                assert forall|a: int, b: int| 0 <= a < b < self.peers@.len() implies self.peers@[a].0 != self.peers@[b].0 by {
                    if b == self.peers@.len() - 1 {
                        assert(old_peers[a].0 != addr);
                    } else {
                        assert(self.peers@[a] == old_peers[a]);
                        assert(self.peers@[b] == old_peers[b]);
                    }
                }
            },
        }
    }

    /// Forgets a disconnected peer.
    pub fn remove_peer(&mut self, addr: &PeerAddr)
        requires
            old(self).wf(),
        ensures
            final(self).wf(),
            peer_map(final(self).peers@) == peer_map(old(self).peers@).remove(*addr),
            task_views(final(self).tasks@) == task_views(old(self).tasks@),
            final(self).version == old(self).version,
    {
        proof {
            lemma_peer_map(self.peers@);
        }
        match find_peer(&self.peers, addr) {
            Some(i) => {
                let ghost old_peers = self.peers@;
                let _ = self.peers.remove(i);
                proof {
                    assert forall|a: int, b: int| 0 <= a < b < self.peers@.len() implies self.peers@[a].0 != self.peers@[b].0 by {
                        let a0 = if a < i { a } else { a + 1 };
                        let b0 = if b < i { b } else { b + 1 };
                        assert(self.peers@[a] == old_peers[a0]);
                        assert(self.peers@[b] == old_peers[b0]);
                    }
                    lemma_peer_map(self.peers@);
                    assert(peer_map(self.peers@) =~= peer_map(old_peers).remove(*addr)) by {
                        assert forall|k: PeerAddr| peer_map(self.peers@).contains_key(k)
                            <==> #[trigger] peer_map(old_peers).remove(*addr).contains_key(k) by {
                            if peer_map(old_peers).contains_key(k) && k != *addr {
                                let j = choose|j: int| 0 <= j < old_peers.len() && old_peers[j].0 == k;
                                if j < i {
                                    assert(self.peers@[j].0 == k);
                                } else {
                                    assert(self.peers@[j - 1].0 == k);
                                }
                            }
                            if peer_map(self.peers@).contains_key(k) {
                                let j = choose|j: int| 0 <= j < self.peers@.len() && self.peers@[j].0 == k;
                                if j < i {
                                    assert(old_peers[j].0 == k);
                                } else {
                                    assert(old_peers[j + 1].0 == k);
                                }
                            }
                        }
                        assert forall|k: PeerAddr| #[trigger] peer_map(self.peers@).contains_key(k)
                            implies peer_map(self.peers@)[k] == peer_map(old_peers).remove(*addr)[k] by {
                            let j = choose|j: int| 0 <= j < self.peers@.len() && self.peers@[j].0 == k;
                            if j < i {
                                assert(old_peers[j].0 == k);
                                assert(self.peers@[j] == old_peers[j]);
                            } else {
                                assert(old_peers[j + 1].0 == k);
                                assert(self.peers@[j] == old_peers[j + 1]);
                            }
                        }
                    }
                }
            },
            None => {
                assert(peer_map(self.peers@) =~= peer_map(self.peers@).remove(*addr));
            },
        }
    }

    /// Handles a text message from a peer: the text becomes a new task created by that peer, and
    /// the version goes up by one.
    pub fn handle_message(&mut self, addr: PeerAddr, msg_text: String)
        requires
            old(self).version < usize::MAX,
        ensures
            task_views(final(self).tasks@) == task_views(old(self).tasks@).push((addr, msg_text@)),
            final(self).version == old(self).version + 1,
            final(self).peers@ == old(self).peers@,
    {
        let ghost old_tasks = self.tasks@;
        let ghost m = msg_text@;
        self.tasks.push(Task { created_by: addr, title: msg_text });
        assert(task_views(self.tasks@) =~= task_views(old_tasks).push((addr, m)));
        self.version = self.version + 1;
    }
}

} // verus!
