//! The peers of a master: for each, its address, the player it stands
//! for, and the channel to it.

use vstd::prelude::*;
use crate::text::same_text;
use crate::channel::{ChannelView, ReliableChannel};

verus! {

/// A node that the master talks to.
#[derive(Clone, Debug)]
pub struct Peer {
    /// The `host:port` of the peer.
    pub addr: String,
    /// The id of the player that the peer stands for.
    pub player_id: i32,
    pub channel: ReliableChannel,
}

/// The mathematical value of a [`Peer`].
pub struct PeerView {
    pub addr: Seq<char>,
    pub player_id: i32,
    pub channel: ChannelView,
}

impl View for Peer {
    type V = PeerView;

    open spec fn view(&self) -> PeerView {
        PeerView { addr: self.addr@, player_id: self.player_id, channel: self.channel@ }
    }
}

/// The values of a list of peers, element by element.
pub open spec fn peer_views(s: Seq<Peer>) -> Seq<PeerView> {
    Seq::new(s.len(), |i: int| s[i]@)
}

/// The index of the first peer with the address `addr`.
pub open spec fn peer_index(peers: Seq<PeerView>, addr: Seq<char>) -> Option<int>
    decreases peers.len(),
{
    if peers.len() == 0 {
        None
    } else {
        match peer_index(peers.drop_last(), addr) {
            Some(i) => Some(i),
            None => if peers.last().addr == addr {
                Some(peers.len() - 1)
            } else {
                None
            },
        }
    }
}

/// The index of the first peer that stands for the player `id`.
pub open spec fn peer_of_player(peers: Seq<PeerView>, id: i32) -> Option<int>
    decreases peers.len(),
{
    if peers.len() == 0 {
        None
    } else {
        match peer_of_player(peers.drop_last(), id) {
            Some(i) => Some(i),
            None => if peers.last().player_id == id {
                Some(peers.len() - 1)
            } else {
                None
            },
        }
    }
}

/// The peers without those that have the address `addr`.
pub open spec fn peers_without(peers: Seq<PeerView>, addr: Seq<char>) -> Seq<PeerView>
    decreases peers.len(),
{
    if peers.len() == 0 {
        Seq::empty()
    } else {
        let rest = peers_without(peers.drop_last(), addr);
        if peers.last().addr == addr {
            rest
        } else {
            rest.push(peers.last())
        }
    }
}

/// No two peers of the list share an address.
pub open spec fn addrs_distinct(peers: Seq<PeerView>) -> bool {
    forall|i1: int, i2: int|
        0 <= i1 < peers.len() && 0 <= i2 < peers.len() && i1 != i2 ==> (#[trigger] peers[i1]).addr
            != (#[trigger] peers[i2]).addr
}

/// One more peer at an address that no peer has keeps the addresses distinct.
pub proof fn lemma_push_peer(peers: Seq<PeerView>, peer: PeerView)
    requires
        addrs_distinct(peers),
        forall|k: int| 0 <= k < peers.len() ==> (#[trigger] peers[k]).addr != peer.addr,
    ensures
        addrs_distinct(peers.push(peer)),
{
    let out = peers.push(peer);
    assert forall|i1: int, i2: int|
        0 <= i1 < out.len() && 0 <= i2 < out.len() && i1 != i2 implies (#[trigger] out[i1]).addr
        != (#[trigger] out[i2]).addr by {
        if i1 < peers.len() {
            assert(out[i1] == peers[i1]);
        }
        if i2 < peers.len() {
            assert(out[i2] == peers[i2]);
        }
    }
}

/// The channel of every peer is well formed.
pub open spec fn channels_wf(peers: Seq<PeerView>) -> bool {
    forall|i: int| 0 <= i < peers.len() ==> (#[trigger] peers[i]).channel.wf()
}

/// `peer_index` finds a peer with the address if there is one.
pub proof fn lemma_peer_index(peers: Seq<PeerView>, addr: Seq<char>)
    ensures
        match peer_index(peers, addr) {
            Some(i) => 0 <= i < peers.len() && peers[i].addr == addr,
            None => forall|k: int| 0 <= k < peers.len() ==> (#[trigger] peers[k]).addr != addr,
        },
    decreases peers.len(),
{
    if peers.len() > 0 {
        let init = peers.drop_last();
        lemma_peer_index(init, addr);
        match peer_index(init, addr) {
            Some(i) => {
                assert(init[i] == peers[i]);
            },
            None => {
                assert forall|k: int| 0 <= k < peers.len() - 1 implies (#[trigger] peers[k]).addr
                    != addr by {
                    assert(init[k] == peers[k]);
                }
            },
        }
    }
}

/// `peer_of_player` finds a peer of the player if there is one.
pub proof fn lemma_peer_of_player(peers: Seq<PeerView>, id: i32)
    ensures
        match peer_of_player(peers, id) {
            Some(i) => 0 <= i < peers.len() && peers[i].player_id == id,
            None => forall|k: int| 0 <= k < peers.len() ==> (#[trigger] peers[k]).player_id != id,
        },
    decreases peers.len(),
{
    if peers.len() > 0 {
        let init = peers.drop_last();
        lemma_peer_of_player(init, id);
        match peer_of_player(init, id) {
            Some(i) => {
                assert(init[i] == peers[i]);
            },
            None => {
                assert forall|k: int| 0 <= k < peers.len() - 1 implies (
                #[trigger] peers[k]).player_id != id by {
                    assert(init[k] == peers[k]);
                }
            },
        }
    }
}

/// An index found in a prefix is the index in the whole list.
pub proof fn lemma_peer_index_prefix(peers: Seq<PeerView>, n: int, addr: Seq<char>)
    requires
        0 <= n <= peers.len(),
        peer_index(peers.subrange(0, n), addr) is Some,
    ensures
        peer_index(peers, addr) == peer_index(peers.subrange(0, n), addr),
    decreases peers.len() - n,
{
    if n < peers.len() {
        assert(peers.subrange(0, n + 1).drop_last() =~= peers.subrange(0, n));
        lemma_peer_index_prefix(peers, n + 1, addr);
    } else {
        assert(peers.subrange(0, n) =~= peers);
    }
}

/// An index found in a prefix is the index in the whole list.
pub proof fn lemma_peer_of_player_prefix(peers: Seq<PeerView>, n: int, id: i32)
    requires
        0 <= n <= peers.len(),
        peer_of_player(peers.subrange(0, n), id) is Some,
    ensures
        peer_of_player(peers, id) == peer_of_player(peers.subrange(0, n), id),
    decreases peers.len() - n,
{
    if n < peers.len() {
        assert(peers.subrange(0, n + 1).drop_last() =~= peers.subrange(0, n));
        lemma_peer_of_player_prefix(peers, n + 1, id);
    } else {
        assert(peers.subrange(0, n) =~= peers);
    }
}

/// What `peers_without` keeps: peers of the list at other addresses, with
/// well-formed channels and distinct addresses if the list had them.
pub proof fn lemma_peers_without(peers: Seq<PeerView>, addr: Seq<char>)
    ensures
        channels_wf(peers) ==> channels_wf(peers_without(peers, addr)),
        addrs_distinct(peers) ==> addrs_distinct(peers_without(peers, addr)),
        forall|k: int|
            0 <= k < peers_without(peers, addr).len() ==> (#[trigger] peers_without(
                peers,
                addr,
            )[k]).addr != addr && peers.contains(peers_without(peers, addr)[k]),
        peer_index(peers_without(peers, addr), addr) is None,
        peers_without(peers, addr).len() <= peers.len(),
    decreases peers.len(),
{
    if peers.len() > 0 {
        let init = peers.drop_last();
        let last = peers.last();
        lemma_peers_without(init, addr);
        let rest = peers_without(init, addr);
        let out = peers_without(peers, addr);
        assert(peers[peers.len() - 1] == last);
        assert forall|k: int| 0 <= k < out.len() implies (#[trigger] out[k]).addr != addr
            && peers.contains(out[k]) by {
            if k < rest.len() {
                assert(out[k] == rest[k]);
                let j = choose|j: int| 0 <= j < init.len() && init[j] == rest[k];
                assert(peers[j] == out[k]);
            }
        }
        if last.addr != addr {
            assert(out.drop_last() =~= rest);
        }
        if channels_wf(peers) {
            assert forall|i: int| 0 <= i < init.len() implies (#[trigger] init[i]).channel.wf() by {
                assert(init[i] == peers[i]);
            }
            assert forall|i: int| 0 <= i < out.len() implies (#[trigger] out[i]).channel.wf() by {
                if i < rest.len() {
                    assert(out[i] == rest[i]);
                } else {
                    assert(out[i] == peers[peers.len() - 1]);
                }
            }
        }
        if addrs_distinct(peers) {
            assert(addrs_distinct(init)) by {
                assert forall|i1: int, i2: int|
                    0 <= i1 < init.len() && 0 <= i2 < init.len() && i1 != i2 implies (
                #[trigger] init[i1]).addr != (#[trigger] init[i2]).addr by {
                    assert(init[i1] == peers[i1] && init[i2] == peers[i2]);
                }
            }
            assert forall|i1: int, i2: int|
                0 <= i1 < out.len() && 0 <= i2 < out.len() && i1 != i2 implies (
            #[trigger] out[i1]).addr != (#[trigger] out[i2]).addr by {
                if i1 < rest.len() && i2 < rest.len() {
                    assert(out[i1] == rest[i1] && out[i2] == rest[i2]);
                } else {
                    let low = if i1 < rest.len() { i1 } else { i2 };
                    assert(out[low] == rest[low]);
                    let j = choose|j: int| 0 <= j < init.len() && init[j] == rest[low];
                    assert(peers[j] == rest[low]);
                    assert(peers[j].addr != peers[peers.len() - 1].addr);
                }
            }
        }
    }
}

/// The index of the first peer with the address `addr`.
pub fn find_peer(peers: &Vec<Peer>, addr: &String) -> (r: Option<usize>)
    ensures
        r is Some <==> peer_index(peer_views(peers@), addr@) is Some,
        r is Some ==> r->0 as int == peer_index(peer_views(peers@), addr@)->0 && r->0 < peers.len(),
{
    let ghost all = peer_views(peers@);
    let mut i: usize = 0;
    while i < peers.len()
        invariant
            i <= peers.len(),
            all == peer_views(peers@),
            peer_index(all.subrange(0, i as int), addr@) is None,
        decreases peers.len() - i,
    {
        proof {
            assert(all.subrange(0, i + 1).drop_last() =~= all.subrange(0, i as int));
            assert(all.subrange(0, i + 1).last() == peers[i as int]@);
        }
        if same_text(&peers[i].addr, addr) {
            proof {
                assert(peer_index(all.subrange(0, i + 1), addr@) == Some(i as int));
                lemma_peer_index_prefix(all, i + 1, addr@);
            }
            return Some(i);
        }
        i += 1;
    }
    proof {
        assert(all.subrange(0, i as int) =~= all);
    }
    None
}

/// The index of the first peer that stands for the player `id`.
pub fn find_peer_of_player(peers: &Vec<Peer>, id: i32) -> (r: Option<usize>)
    ensures
        r is Some <==> peer_of_player(peer_views(peers@), id) is Some,
        r is Some ==> r->0 as int == peer_of_player(peer_views(peers@), id)->0 && r->0
            < peers.len(),
{
    let ghost all = peer_views(peers@);
    let mut i: usize = 0;
    while i < peers.len()
        invariant
            i <= peers.len(),
            all == peer_views(peers@),
            peer_of_player(all.subrange(0, i as int), id) is None,
        decreases peers.len() - i,
    {
        proof {
            assert(all.subrange(0, i + 1).drop_last() =~= all.subrange(0, i as int));
            assert(all.subrange(0, i + 1).last() == peers[i as int]@);
        }
        if peers[i].player_id == id {
            proof {
                assert(peer_of_player(all.subrange(0, i + 1), id) == Some(i as int));
                lemma_peer_of_player_prefix(all, i + 1, id);
            }
            return Some(i);
        }
        i += 1;
    }
    proof {
        assert(all.subrange(0, i as int) =~= all);
    }
    None
}

/// Takes the peers with the address `addr` off the list.
pub fn remove_peers(peers: &mut Vec<Peer>, addr: &String)
    ensures
        peer_views(final(peers)@) == peers_without(peer_views(old(peers)@), addr@),
{
    let mut rest: Vec<Peer> = Vec::new();
    core::mem::swap(&mut rest, peers);
    let ghost all = peer_views(rest@);
    let mut tail: Vec<Peer> = Vec::new();
    while rest.len() > 0
        invariant
            peers@.len() == 0,
            rest.len() <= all.len(),
            peer_views(rest@) == all.subrange(0, rest.len() as int),
            peers_without(all, addr@) == peers_without(peer_views(rest@), addr@) + peer_views(
                tail@,
            ).reverse(),
        decreases rest.len(),
    {
        let ghost before = peer_views(rest@);
        let ghost tail_before = peer_views(tail@);
        let p = rest.pop().unwrap();
        proof {
            assert(peer_views(rest@) =~= before.drop_last());
            assert(before.last() == p@);
            assert(peer_views(rest@) =~= all.subrange(0, rest.len() as int));
        }
        if !same_text(&p.addr, addr) {
            tail.push(p);
            proof {
                assert(peer_views(tail@) =~= tail_before.push(p@));
                assert(peer_views(tail@).reverse() =~= seq![p@] + tail_before.reverse());
                assert(peers_without(before, addr@) == peers_without(before.drop_last(), addr@).push(
                    p@,
                ));
                assert(peers_without(all, addr@) =~= peers_without(peer_views(rest@), addr@)
                    + peer_views(tail@).reverse());
            }
        }
    }
    proof {
        assert(peer_views(rest@) =~= Seq::empty());
        assert(peer_views(peers@) =~= Seq::empty());
        assert(peers_without(all, addr@) =~= peer_views(peers@) + peer_views(tail@).reverse());
    }
    while tail.len() > 0
        invariant
            peers_without(all, addr@) == peer_views(peers@) + peer_views(tail@).reverse(),
        decreases tail.len(),
    {
        let ghost tail_before = peer_views(tail@);
        let ghost kept_before = peer_views(peers@);
        let p = tail.pop().unwrap();
        peers.push(p);
        proof {
            assert(peer_views(tail@) =~= tail_before.drop_last());
            assert(peer_views(peers@) =~= kept_before.push(p@));
            assert(tail_before.reverse() =~= seq![p@] + peer_views(tail@).reverse());
            assert(peers_without(all, addr@) =~= peer_views(peers@) + peer_views(tail@).reverse());
        }
    }
    proof {
        assert(peer_views(tail@).reverse() =~= Seq::empty());
        assert(peers_without(all, addr@) =~= peer_views(peers@));
    }
}

} // verus!
