use vstd::prelude::*;
use crate::events::InternalEvent;
use crate::picker::random_below;

verus! {

/// How many peers the ranking unchokes.
pub const MAX_CONCURRENTLY_UNCHOKED_PEERS: usize = 4;

/// What the choke controller reacts to.
#[derive(Clone, Copy, Debug, PartialEq, Eq)]
pub enum ChokeEvent {
    UnchokePeers,
    OptimisticUnchoke,
    ClientInterestedInPeer(usize, bool),
    PeerInterestedInClient(usize, bool),
    BlockDownloadedFromPeer(usize),
    UnregisterPeer(usize),
}

/// What the choke controller knows of one peer.
#[derive(Clone, Copy, Debug, PartialEq, Eq, Hash, Structural)]
pub struct PeerState {
    pub idx: usize,
    pub peer_choked_by_client: bool,
    pub client_interested_in_peer: bool,
    pub peer_interested_in_client: bool,
    pub downloaded_blocks: usize,
}

impl PeerState {
    pub open spec fn unchokeable(&self) -> bool {
        self.peer_choked_by_client && self.peer_interested_in_client && self.client_interested_in_peer
    }

    pub fn new(peer_idx: usize) -> (r: Self)
        ensures
            r == (PeerState {
                idx: peer_idx,
                peer_choked_by_client: true,
                client_interested_in_peer: false,
                peer_interested_in_client: false,
                downloaded_blocks: 0,
            }),
    {
        PeerState {
            idx: peer_idx,
            peer_choked_by_client: true,
            client_interested_in_peer: false,
            peer_interested_in_client: false,
            downloaded_blocks: 0,
        }
    }

    /// Whether an optimistic unchoke may pick this peer: choked by the client,
    /// and interest both ways.
    pub fn is_unchokeable(&self) -> (r: bool)
        ensures
            r == self.unchokeable(),
    {
        self.peer_choked_by_client && self.peer_interested_in_client && self.client_interested_in_peer
    }

    /// Counts one more block from this peer; the count saturates.
    pub fn block_downloaded(&mut self)
        ensures
            *final(self) == (PeerState {
                downloaded_blocks: if old(self).downloaded_blocks < usize::MAX {
                    (old(self).downloaded_blocks + 1) as usize
                } else {
                    usize::MAX
                },
                ..*old(self)
            }),
    {
        if self.downloaded_blocks < usize::MAX {
            self.downloaded_blocks = self.downloaded_blocks + 1;
        }
    }
}

/// Peer indices are unique.
pub open spec fn peers_wf(peers: Seq<PeerState>) -> bool {
    forall|a: int, b: int| 0 <= a < b < peers.len() ==> peers[a].idx != peers[b].idx
}

/// Peer at position `a` ranks before the one at `b`: more blocks downloaded,
/// or as many and added earlier.
pub open spec fn ranks_before(peers: Seq<PeerState>, a: int, b: int) -> bool {
    peers[a].downloaded_blocks > peers[b].downloaded_blocks || (peers[a].downloaded_blocks
        == peers[b].downloaded_blocks && a < b)
}

pub open spec fn eligible(peers: Seq<PeerState>, p: int) -> bool {
    0 <= p < peers.len() && peers[p].client_interested_in_peer
}

/// `top` lists, best first, the peers the client is interested in that rank
/// highest, as many as there are up to the limit.
pub open spec fn is_ranking(peers: Seq<PeerState>, top: Seq<usize>) -> bool {
    &&& top.len() <= MAX_CONCURRENTLY_UNCHOKED_PEERS
    &&& top.no_duplicates()
    &&& forall|r: int| 0 <= r < top.len() ==> eligible(peers, #[trigger] top[r] as int)
    &&& forall|r: int, j: int|
        0 <= r < top.len() && #[trigger] eligible(peers, j) && !top.subrange(0, r + 1).contains(
            j as usize,
        ) ==> ranks_before(peers, #[trigger] top[r] as int, j)
    &&& top.len() < MAX_CONCURRENTLY_UNCHOKED_PEERS ==> forall|j: int|
        eligible(peers, j) ==> #[trigger] top.contains(j as usize)
}

/// The position of the peer with index `idx`, if any.
pub open spec fn position_of(peers: Seq<PeerState>, idx: usize) -> Option<int> {
    if exists|p: int| 0 <= p < peers.len() && #[trigger] peers[p].idx == idx {
        Some(choose|p: int| 0 <= p < peers.len() && #[trigger] peers[p].idx == idx)
    } else {
        None
    }
}

fn find_peer(peers: &Vec<PeerState>, idx: usize) -> (r: Option<usize>)
    requires
        peers_wf(peers@),
    ensures
        match r {
            Some(p) => position_of(peers@, idx) == Some(p as int),
            None => position_of(peers@, idx) is None,
        },
{
    let mut p: usize = 0;
    while p < peers.len()
        invariant
            peers_wf(peers@),
            p <= peers@.len(),
            forall|k: int| 0 <= k < p ==> peers@[k].idx != idx,
        decreases peers@.len() - p,
    {
        if peers[p].idx == idx {
            assert(exists|q: int| 0 <= q < peers@.len() && #[trigger] peers@[q].idx == idx) by {
                assert(peers@[p as int].idx == idx);
            }
            let ghost c = choose|q: int| 0 <= q < peers@.len() && #[trigger] peers@[q].idx == idx;
            assert(c == p as int) by {
                if c < p as int {
                } else if c > p as int {
                    assert(peers@[p as int].idx != peers@[c].idx);
                }
            }
            return Some(p);
        }
        p = p + 1;
    }
    None
}

/// Choke notices, in position order, for the unchoked peers that leave the ranking.
pub open spec fn choke_events(peers: Seq<PeerState>, top: Seq<usize>, n: int) -> Seq<InternalEvent>
    decreases n,
{
    if n <= 0 {
        Seq::empty()
    } else {
        let prev = choke_events(peers, top, n - 1);
        if !peers[n - 1].peer_choked_by_client && !top.contains((n - 1) as usize) {
            prev.push(InternalEvent::ChokePeer(peers[n - 1].idx))
        } else {
            prev
        }
    }
}

/// Unchoke notices, in ranking order, for the ranked peers that are choked.
pub open spec fn unchoke_events(peers: Seq<PeerState>, top: Seq<usize>, n: int) -> Seq<InternalEvent>
    decreases n,
{
    if n <= 0 {
        Seq::empty()
    } else {
        let prev = unchoke_events(peers, top, n - 1);
        if peers[top[n - 1] as int].peer_choked_by_client {
            prev.push(InternalEvent::UnchokePeer(peers[top[n - 1] as int].idx))
        } else {
            prev
        }
    }
}

fn contains_position(top: &Vec<usize>, p: usize) -> (r: bool)
    ensures
        r == top@.contains(p),
{
    let mut i: usize = 0;
    while i < top.len()
        invariant
            i <= top@.len(),
            forall|k: int| 0 <= k < i ==> top@[k] != p,
        decreases top@.len() - i,
    {
        if top[i] == p {
            return true;
        }
        i = i + 1;
    }
    false
}

/// The peers to unchoke by ranking, best first.
fn rank_peers(peers: &Vec<PeerState>) -> (top: Vec<usize>)
    ensures
        is_ranking(peers@, top@),
{
    let n = peers.len();
    let mut top: Vec<usize> = Vec::new();
    while top.len() < MAX_CONCURRENTLY_UNCHOKED_PEERS
        invariant
            n == peers@.len(),
            top@.len() <= MAX_CONCURRENTLY_UNCHOKED_PEERS,
            top@.no_duplicates(),
            forall|r: int| 0 <= r < top@.len() ==> eligible(peers@, #[trigger] top@[r] as int),
            forall|r: int, j: int|
                0 <= r < top@.len() && #[trigger] eligible(peers@, j) && !top@.subrange(0, r + 1).contains(
                    j as usize,
                ) ==> ranks_before(peers@, #[trigger] top@[r] as int, j),
        decreases MAX_CONCURRENTLY_UNCHOKED_PEERS - top@.len(),
    {
        let mut best: Option<usize> = None;
        let mut p: usize = 0;
        while p < n
            invariant
                n == peers@.len(),
                p <= n,
                match best {
                    Some(b) => b < p && eligible(peers@, b as int) && !top@.contains(b) && forall|q: int|
                        0 <= q < p && q != b && #[trigger] eligible(peers@, q) && !top@.contains(q as usize)
                            ==> ranks_before(peers@, b as int, q),
                    None => forall|q: int|
                        0 <= q < p && #[trigger] eligible(peers@, q) ==> top@.contains(q as usize),
                },
            decreases n - p,
        {
            if peers[p].client_interested_in_peer && !contains_position(&top, p) {
                match best {
                    None => {
                        best = Some(p);
                    },
                    Some(b) => {
                        if peers[p].downloaded_blocks > peers[b].downloaded_blocks {
                            best = Some(p);
                        }
                    },
                }
            }
            p = p + 1;
        }
        match best {
            None => {
                proof {
                    assert forall|j: int| eligible(peers@, j) implies #[trigger] top@.contains(j as usize) by {}
                }
                return top;
            },
            Some(b) => {
                let ghost before = top@;
                top.push(b);
                proof {
                    assert(top@.subrange(0, before.len() as int) =~= before);
                    assert forall|r: int, j: int|
                        0 <= r < top@.len() && #[trigger] eligible(peers@, j) && !top@.subrange(0, r + 1).contains(
                            j as usize,
                        ) implies ranks_before(peers@, #[trigger] top@[r] as int, j) by {
                        if r < before.len() {
                            assert(top@.subrange(0, r + 1) =~= before.subrange(0, r + 1));
                        } else {
                            assert(top@.subrange(0, r + 1) =~= top@);
                            assert(!before.contains(j as usize)) by {
                                if before.contains(j as usize) {
                                    let k = choose|k: int| 0 <= k < before.len() && before[k] == j as usize;
                                    assert(top@[k] == j as usize);
                                }
                            }
                            assert(j != b as int) by {
                                assert(top@[r] == b);
                            }
                        }
                    }
                    assert forall|a: int, c: int| 0 <= a < c < top@.len() implies top@[a] != top@[c] by {
                        if c == before.len() {
                            assert(before.contains(top@[a]));
                        }
                    }
                }
            },
        }
    }
    top
}

/// What a re-ranking does: the ranked peers become exactly the unchoked ones,
/// with notices for each change, and every download count restarts from zero.
pub open spec fn rotation_spec(before: Seq<PeerState>, after: Seq<PeerState>, events: Seq<InternalEvent>) -> bool {
    exists|top: Seq<usize>|
        #[trigger] is_ranking(before, top) && events == choke_events(before, top, before.len() as int)
            + unchoke_events(before, top, top.len() as int) && after.len() == before.len() && forall|p: int|
            0 <= p < before.len() ==> #[trigger] after[p] == (PeerState {
                peer_choked_by_client: !top.contains(p as usize),
                downloaded_blocks: 0,
                ..before[p]
            })
}

/// Re-ranks the peers: the best ranked become the unchoked set, the others are
/// choked, and every download count starts again from zero.
pub fn unchoke_peers(peers: &mut Vec<PeerState>) -> (events: Vec<InternalEvent>)
    requires
        peers_wf(old(peers)@),
    ensures
        peers_wf(final(peers)@),
        rotation_spec(old(peers)@, final(peers)@, events@),
        exists|top: Seq<usize>|
            top.len() <= MAX_CONCURRENTLY_UNCHOKED_PEERS && forall|p: int|
                0 <= p < final(peers)@.len() && !final(peers)@[p].peer_choked_by_client
                    ==> #[trigger] top.contains(p as usize),
{
    let top = rank_peers(peers);
    let n = peers.len();
    let ghost old_peers = peers@;
    let mut events: Vec<InternalEvent> = Vec::new();
    let mut p: usize = 0;
    while p < n
        invariant
            n == peers@.len(),
            peers@ == old_peers,
            p <= n,
            events@ == choke_events(old_peers, top@, p as int),
        decreases n - p,
    {
        if !peers[p].peer_choked_by_client && !contains_position(&top, p) {
            events.push(InternalEvent::ChokePeer(peers[p].idx));
        }
        p = p + 1;
    }
    let ghost chokes = events@;
    let mut r: usize = 0;
    while r < top.len()
        invariant
            n == peers@.len(),
            peers@ == old_peers,
            is_ranking(old_peers, top@),
            r <= top@.len(),
            events@ == chokes + unchoke_events(old_peers, top@, r as int),
        decreases top@.len() - r,
    {
        let q = top[r];
        if peers[q].peer_choked_by_client {
            events.push(InternalEvent::UnchokePeer(peers[q].idx));
            assert(events@ =~= chokes + unchoke_events(old_peers, top@, r + 1));
        }
        r = r + 1;
    }
    let mut p: usize = 0;
    while p < n
        invariant
            n == peers@.len(),
            n == old_peers.len(),
            peers_wf(old_peers),
            p <= n,
            forall|k: int| p <= k < n ==> #[trigger] peers@[k] == old_peers[k],
            forall|k: int|
                0 <= k < p ==> #[trigger] peers@[k] == (PeerState {
                    peer_choked_by_client: !top@.contains(k as usize),
                    downloaded_blocks: 0,
                    ..old_peers[k]
                }),
        decreases n - p,
    {
        let choked = !contains_position(&top, p);
        let mut peer = peers[p];
        peer.peer_choked_by_client = choked;
        peer.downloaded_blocks = 0;
        peers.set(p, peer);
        p = p + 1;
    }
    proof {
        assert(is_ranking(old_peers, top@));
        assert forall|a: int, b: int| 0 <= a < b < peers@.len() implies peers@[a].idx != peers@[b].idx by {
            assert(peers@[a].idx == old_peers[a].idx);
            assert(peers@[b].idx == old_peers[b].idx);
        }
        assert forall|k: int| 0 <= k < peers@.len() && !peers@[k].peer_choked_by_client
            implies #[trigger] top@.contains(k as usize) by {
            assert(peers@[k].peer_choked_by_client == !top@.contains(k as usize));
        }
    }
    events
}

/// What an optimistic unchoke does: with no peer choked by the client and
/// interested both ways, nothing; else it unchokes one such peer.
pub open spec fn optimistic_spec(before: Seq<PeerState>, after: Seq<PeerState>, events: Seq<InternalEvent>) -> bool {
    &&& (forall|p: int| 0 <= p < before.len() ==> !(#[trigger] before[p]).unchokeable()) ==> events.len()
        == 0 && after == before
    &&& (exists|p: int| 0 <= p < before.len() && (#[trigger] before[p]).unchokeable()) ==> exists|c: int|
        0 <= c < before.len() && (#[trigger] before[c]).unchokeable() && events == seq![
            InternalEvent::UnchokePeer(before[c].idx),
        ] && after == before.update(c, PeerState { peer_choked_by_client: false, ..before[c] })
}

/// Unchokes one peer, chosen at random, among those choked by the client with
/// interest both ways.
pub fn optimistic_unchoke(peers: &mut Vec<PeerState>) -> (events: Vec<InternalEvent>)
    requires
        peers_wf(old(peers)@),
    ensures
        peers_wf(final(peers)@),
        optimistic_spec(old(peers)@, final(peers)@, events@),
{
    let n = peers.len();
    let mut candidates: Vec<usize> = Vec::new();
    let mut p: usize = 0;
    while p < n
        invariant
            n == peers@.len(),
            p <= n,
            forall|i: int|
                0 <= i < candidates@.len() ==> #[trigger] candidates@[i] < n && peers@[candidates@[i] as int].unchokeable(),
            forall|k: int| 0 <= k < p && (#[trigger] peers@[k]).unchokeable() ==> candidates@.len() > 0,
        decreases n - p,
    {
        if peers[p].is_unchokeable() {
            candidates.push(p);
        }
        p = p + 1;
    }
    if candidates.len() == 0 {
        return Vec::new();
    }
    let c = candidates[random_below(candidates.len())];
    let ghost before = peers@;
    let mut peer = peers[c];
    peer.peer_choked_by_client = false;
    peers.set(c, peer);
    let mut events: Vec<InternalEvent> = Vec::new();
    events.push(InternalEvent::UnchokePeer(peer.idx));
    proof {
        assert(events@ =~= seq![InternalEvent::UnchokePeer(before[c as int].idx)]);
        assert(peers@ =~= before.update(c as int, PeerState { peer_choked_by_client: false, ..before[c as int] }));
        assert forall|a: int, b: int| 0 <= a < b < peers@.len() implies peers@[a].idx != peers@[b].idx by {
            assert(peers@[a].idx == before[a].idx);
            assert(peers@[b].idx == before[b].idx);
        }
    }
    events
}

/// Reacts to one event of the choke controller; returns the events for the bus.
pub fn handle(event: ChokeEvent, peers: &mut Vec<PeerState>) -> (events: Vec<InternalEvent>)
    requires
        peers_wf(old(peers)@),
    ensures
        peers_wf(final(peers)@),
        match event {
            ChokeEvent::ClientInterestedInPeer(idx, b) => events@.len() == 0 && final(peers)@ == match position_of(
                old(peers)@,
                idx,
            ) {
                Some(p) => old(peers)@.update(p, PeerState { client_interested_in_peer: b, ..old(peers)@[p] }),
                None => old(peers)@,
            },
            ChokeEvent::PeerInterestedInClient(idx, b) => events@.len() == 0 && final(peers)@ == match position_of(
                old(peers)@,
                idx,
            ) {
                Some(p) => old(peers)@.update(p, PeerState { peer_interested_in_client: b, ..old(peers)@[p] }),
                None => old(peers)@,
            },
            ChokeEvent::BlockDownloadedFromPeer(idx) => events@.len() == 0 && final(peers)@ == match position_of(
                old(peers)@,
                idx,
            ) {
                Some(p) => old(peers)@.update(
                    p,
                    PeerState {
                        downloaded_blocks: if old(peers)@[p].downloaded_blocks < usize::MAX {
                            (old(peers)@[p].downloaded_blocks + 1) as usize
                        } else {
                            usize::MAX
                        },
                        ..old(peers)@[p]
                    },
                ),
                None => old(peers)@,
            },
            ChokeEvent::UnregisterPeer(idx) => events@.len() == 0 && final(peers)@ == match position_of(
                old(peers)@,
                idx,
            ) {
                Some(p) => old(peers)@.remove(p),
                None => old(peers)@,
            },
            ChokeEvent::UnchokePeers => rotation_spec(old(peers)@, final(peers)@, events@),
            ChokeEvent::OptimisticUnchoke => optimistic_spec(old(peers)@, final(peers)@, events@),
        },
{
    match event {
        ChokeEvent::UnchokePeers => unchoke_peers(peers),
        ChokeEvent::OptimisticUnchoke => optimistic_unchoke(peers),
        ChokeEvent::ClientInterestedInPeer(idx, interested) => {
            if let Some(p) = find_peer(peers, idx) {
                let mut peer = peers[p];
                peer.client_interested_in_peer = interested;
                peers.set(p, peer);
                proof { lemma_update_keeps_wf(old(peers)@, p as int, peer); }
            }
            Vec::new()
        },
        ChokeEvent::PeerInterestedInClient(idx, interested) => {
            if let Some(p) = find_peer(peers, idx) {
                let mut peer = peers[p];
                peer.peer_interested_in_client = interested;
                peers.set(p, peer);
                proof { lemma_update_keeps_wf(old(peers)@, p as int, peer); }
            }
            Vec::new()
        },
        ChokeEvent::BlockDownloadedFromPeer(idx) => {
            if let Some(p) = find_peer(peers, idx) {
                let mut peer = peers[p];
                peer.block_downloaded();
                peers.set(p, peer);
                proof { lemma_update_keeps_wf(old(peers)@, p as int, peer); }
            }
            Vec::new()
        },
        ChokeEvent::UnregisterPeer(idx) => {
            if let Some(p) = find_peer(peers, idx) {
                let ghost before = peers@;
                peers.remove(p);
                proof {
                    assert forall|a: int, b: int| 0 <= a < b < peers@.len() implies peers@[a].idx != peers@[b].idx by {
                        let a2 = if a < p { a } else { a + 1 };
                        let b2 = if b < p { b } else { b + 1 };
                        assert(peers@[a] == before[a2]);
                        assert(peers@[b] == before[b2]);
                    }
                }
            }
            Vec::new()
        },
    }
}

proof fn lemma_update_keeps_wf(peers: Seq<PeerState>, p: int, peer: PeerState)
    requires
        peers_wf(peers),
        0 <= p < peers.len(),
        peer.idx == peers[p].idx,
    ensures
        peers_wf(peers.update(p, peer)),
{
    let s = peers.update(p, peer);
    assert forall|a: int, b: int| 0 <= a < b < s.len() implies s[a].idx != s[b].idx by {
        assert(s[a].idx == peers[a].idx);
        assert(s[b].idx == peers[b].idx);
    }
}

/// A choke controller's peers, in order of registration.
pub fn init_peers(count: usize) -> (peers: Vec<PeerState>)
    ensures
        peers_wf(peers@),
        peers@.len() == count,
        forall|p: int| 0 <= p < count ==> #[trigger] peers@[p] == (PeerState {
            idx: p as usize,
            peer_choked_by_client: true,
            client_interested_in_peer: false,
            peer_interested_in_client: false,
            downloaded_blocks: 0,
        }),
{
    let mut peers: Vec<PeerState> = Vec::new();
    let mut i: usize = 0;
    while i < count
        invariant
            i <= count,
            peers@.len() == i,
            forall|p: int| 0 <= p < i ==> #[trigger] peers@[p] == (PeerState {
                idx: p as usize,
                peer_choked_by_client: true,
                client_interested_in_peer: false,
                peer_interested_in_client: false,
                downloaded_blocks: 0,
            }),
        decreases count - i,
    {
        peers.push(PeerState::new(i));
        i = i + 1;
    }
    peers
}

} // verus!
