use vstd::prelude::*;

verus! {

/// A peer's IP address, as its bytes.
#[derive(Debug, Clone, Copy)]
pub enum PeerIp {
    V4([u8; 4]),
    V6([u8; 16]),
}

/// A peer: IP address and port.
#[derive(Debug, Clone, Copy)]
pub struct Peer {
    pub ip: PeerIp,
    pub port: u16,
}

fn bytes_eq<const N: usize>(a: &[u8; N], b: &[u8; N]) -> (r: bool)
    ensures
        r == (*a == *b),
{
    let mut i: usize = 0;
    while i < N
        invariant
            0 <= i <= N,
            a@.len() == N,
            b@.len() == N,
            forall|j: int| 0 <= j < i ==> a@[j] == b@[j],
        decreases N - i,
    {
        if a[i] != b[i] {
            assert(a@[i as int] != b@[i as int]);
            return false;
        }
        i = i + 1;
    }
    assert(*a =~= *b);
    true
}

/// Whether two peers are the same address and port.
pub fn same_peer(a: &Peer, b: &Peer) -> (r: bool)
    ensures
        r == (*a == *b),
{
    if a.port != b.port {
        return false;
    }
    match (&a.ip, &b.ip) {
        (PeerIp::V4(x), PeerIp::V4(y)) => bytes_eq(x, y),
        (PeerIp::V6(x), PeerIp::V6(y)) => bytes_eq(x, y),
        _ => false,
    }
}

/// The peers a node knows, each once.
#[derive(Debug)]
pub struct PeerList {
    pub peers: Vec<Peer>,
}

impl PeerList {
    /// An empty peer list.
    pub fn new() -> (l: Self)
        ensures
            l.peers@ == Seq::<Peer>::empty(),
    {
        PeerList { peers: Vec::new() }
    }

    /// Adds a peer unless it is already listed.
    pub fn add_peer(&mut self, peer: Peer)
        ensures
            final(self).peers@ == if old(self).peers@.contains(peer) {
                old(self).peers@
            } else {
                old(self).peers@.push(peer)
            },
    {
        let mut i: usize = 0;
        while i < self.peers.len()
            invariant
                0 <= i <= self.peers@.len(),
                self.peers@ == old(self).peers@,
                forall|j: int| 0 <= j < i ==> self.peers@[j] != peer,
            decreases self.peers@.len() - i,
        {
            if same_peer(&self.peers[i], &peer) {
                assert(self.peers@[i as int] == peer);
                return;
            }
            i = i + 1;
        }
        self.peers.push(peer);
    }
}

} // verus!
