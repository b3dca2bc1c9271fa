//! Messages between nodes and clients, and the connections that carry them.

use std::collections::HashSet;

use vstd::prelude::*;

use crate::kv::KVCommand;
use crate::server::APIResponse;
use crate::text::{decimal, law_decimal_reads_back, push_decimal, read_u64};

verus! {

broadcast use vstd::std_specs::hash::group_hash_axioms;

/// What nodes and clients send each other. `M` is the consensus protocol's own message.
#[derive(Clone, Debug, PartialEq, Eq)]
pub enum Message<M> {
    OmniPaxosMsg(M),
    APIRequest(KVCommand),
    APIResponse(APIResponse),
    StateCatchup(Vec<(String, String)>),
    Debug(String),
    Reconnect(u64),
}

/// The receiver that stands for the client.
pub const CLIENT: u64 = 0;

/// The byte that ends a message on the wire.
pub const END_OF_MESSAGE: u8 = 10;

/// How long a node waits before it tries again to connect to a peer.
pub const RECONNECT_DELAY_SECS: u64 = 2;

/// What goes on the wire for the bytes of a message.
pub open spec fn framed(data: Seq<u8>) -> Seq<u8> {
    data.push(END_OF_MESSAGE)
}

/// A serialized message as it goes on the wire.
pub fn frame(data: Vec<u8>) -> (r: Vec<u8>)
    ensures
        r@ == framed(data@),
        r@ == data@.push(END_OF_MESSAGE),
{
    let mut r = data;
    r.push(END_OF_MESSAGE);
    r
}

/// A message whose serialized form does not hold the end byte is read back as one piece: the
/// first end byte on the wire is the one behind it.
pub proof fn law_frame_is_one_message(data: Seq<u8>, rest: Seq<u8>)
    requires
        !data.contains(END_OF_MESSAGE),
    ensures
        ({
            let wire = framed(data) + rest;
            &&& framed(data).len() == data.len() + 1
            &&& wire[data.len() as int] == END_OF_MESSAGE
            &&& forall|i: int| 0 <= i < data.len() ==> #[trigger] wire[i] != END_OF_MESSAGE
            &&& wire.take(data.len() as int) == data
        }),
{
    let wire = framed(data) + rest;
    assert forall|i: int| 0 <= i < data.len() implies #[trigger] wire[i] != END_OF_MESSAGE by {
        assert(wire[i] == data[i]);
    }
    assert(wire.take(data.len() as int) =~= data);
}

pub open spec fn is_not(pid: u64) -> spec_fn(u64) -> bool {
    |n: u64| n != pid
}

/// The members of `nodes` other than `pid`, in order.
pub open spec fn others(nodes: Seq<u64>, pid: u64) -> Seq<u64> {
    nodes.filter(is_not(pid))
}

/// A node is none of its own peers, and every other node is.
pub proof fn law_peers_are_the_others(nodes: Seq<u64>, pid: u64, n: u64)
    ensures
        others(nodes, pid).contains(n) <==> nodes.contains(n) && n != pid,
{
    broadcast use vstd::seq_lib::group_filter_ensures;

    if others(nodes, pid).contains(n) {
        nodes.lemma_filter_contains_rev(is_not(pid), n);
    }
}

/// The peers stand in the order of the nodes: those of two lists, one behind the other, are those of
/// the one behind those of the other, each as often as it stands there.
pub proof fn law_peers_keep_their_order(a: Seq<u64>, b: Seq<u64>, pid: u64, n: u64)
    ensures
        others(a + b, pid) == others(a, pid) + others(b, pid),
        others(seq![n], pid) == if n == pid {
            Seq::empty()
        } else {
            seq![n]
        },
{
    Seq::filter_distributes_over_add(a, b, is_not(pid));
    reveal(Seq::filter);
    assert(seq![n].drop_last() =~= Seq::<u64>::empty());
    assert(others(Seq::empty(), pid) =~= Seq::<u64>::empty());
    assert(others(seq![n], pid) =~= if n == pid {
        Seq::empty()
    } else {
        seq![n]
    });
}

/// The nodes other than `pid`.
pub fn peers_of(nodes: &Vec<u64>, pid: u64) -> (r: Vec<u64>)
    ensures
        r@ == others(nodes@, pid),
{
    let ghost keep = is_not(pid);
    let mut r: Vec<u64> = Vec::new();
    let mut i: usize = 0;
    assert(nodes@.take(0).filter(keep) =~= Seq::empty()) by {
        reveal(Seq::filter);
    }
    while i < nodes.len()
        invariant
            i <= nodes@.len(),
            keep == is_not(pid),
            r@ == nodes@.take(i as int).filter(keep),
        decreases nodes@.len() - i,
    {
        proof {
            reveal(Seq::filter);
            assert(nodes@.take(i + 1).drop_last() =~= nodes@.take(i as int));
        }
        if nodes[i] != pid {
            r.push(nodes[i]);
        }
        i += 1;
    }
    assert(nodes@.take(nodes@.len() as int) =~= nodes@);
    r
}

/// Where a message goes.
#[derive(Clone, Copy, Debug, PartialEq, Eq)]
pub enum SendRoute {
    /// To the client, over the client's connection if there is one.
    Client,
    /// To a peer.
    Peer(u64),
    /// Nowhere: there is no connection to the peer.
    NotConnected(u64),
}

/// What happens on the connection to a peer.
#[derive(Clone, Debug, PartialEq, Eq)]
pub enum LinkEvent<M> {
    Connected,
    ConnectFailed,
    Received(Message<M>),
    Closed,
    ReadFailed,
}

/// What to do next about the connection to a peer.
#[derive(Clone, Copy, Debug, PartialEq, Eq)]
pub enum LinkAction {
    /// Read the next message from it.
    Read,
    /// Wait, then connect again.
    Reconnect,
}

/// Where a message for `receiver` goes, with connections to the peers `sockets`.
pub open spec fn send_route(sockets: Set<u64>, receiver: u64) -> SendRoute {
    if receiver == CLIENT {
        SendRoute::Client
    } else if sockets.contains(receiver) {
        SendRoute::Peer(receiver)
    } else {
        SendRoute::NotConnected(receiver)
    }
}

/// The peers that a node is connected to after something happened on the connection to `peer`.
pub open spec fn link_sockets<M>(sockets: Set<u64>, peer: u64, event: LinkEvent<M>) -> Set<u64> {
    match event {
        LinkEvent::Connected => sockets.insert(peer),
        LinkEvent::Closed | LinkEvent::ReadFailed => sockets.remove(peer),
        LinkEvent::ConnectFailed | LinkEvent::Received(_) => sockets,
    }
}

/// What has come in, after something happened on the connection to a peer.
pub open spec fn link_buffer<M>(buf: Seq<Message<M>>, event: LinkEvent<M>) -> Seq<Message<M>> {
    match event {
        LinkEvent::Received(msg) => buf.push(msg),
        _ => buf,
    }
}

/// What to do next about the connection to a peer.
pub open spec fn link_action<M>(event: LinkEvent<M>) -> LinkAction {
    match event {
        LinkEvent::Connected | LinkEvent::Received(_) => LinkAction::Read,
        _ => LinkAction::Reconnect,
    }
}

/// The messages that are handed out of what has come in, and what is left of it then.
pub open spec fn handed_out<M>(buf: Seq<Message<M>>) -> (Seq<Message<M>>, Seq<Message<M>>) {
    (buf, Seq::empty())
}

/// What has come in after a run of events.
pub open spec fn buffer_after<M>(buf: Seq<Message<M>>, events: Seq<LinkEvent<M>>) -> Seq<
    Message<M>,
>
    decreases events.len(),
{
    if events.len() == 0 {
        buf
    } else {
        link_buffer(buffer_after(buf, events.drop_last()), events.last())
    }
}

/// Every message that comes in is handed out once, and in the order in which they came: messages
/// that come in one after the other, with whatever else happens in between, stand behind those that
/// came before, and handing out takes all of them and leaves none.
pub proof fn law_messages_are_handed_out_once<M>(
    buf: Seq<Message<M>>,
    before: Seq<LinkEvent<M>>,
    msg: Message<M>,
    after: Seq<LinkEvent<M>>,
)
    requires
        forall|i: int| 0 <= i < after.len() ==> (#[trigger] after[i]) !is Received,
    ensures
        buffer_after(buf, before.push(LinkEvent::Received(msg)) + after) == buffer_after(
            buf,
            before,
        ) + seq![msg],
        handed_out(buf).0 + handed_out(buf).1 == buf,
        handed_out(buf).1.len() == 0,
    decreases after.len(),
{
    let upto = before.push(LinkEvent::Received(msg));
    if after.len() == 0 {
        assert(upto + after =~= upto);
        assert(upto.drop_last() =~= before);
        assert(buffer_after(buf, before).push(msg) =~= buffer_after(buf, before) + seq![msg]);
    } else {
        assert((upto + after).drop_last() =~= upto + after.drop_last());
        assert(after[after.len() - 1] !is Received);
        assert forall|i: int| 0 <= i < after.drop_last().len() implies (
        #[trigger] after.drop_last()[i]) !is Received by {
            assert(after.drop_last()[i] == after[i]);
        }
        law_messages_are_handed_out_once(buf, before, msg, after.drop_last());
    }
    assert(handed_out(buf).0 + handed_out(buf).1 =~= buf);
}

/// A connection is read from exactly as long as it stands, and made again once it does not.
pub proof fn law_links_are_kept_up<M>(sockets: Set<u64>, peer: u64, event: LinkEvent<M>)
    requires
        event is Received ==> sockets.contains(peer),
        event is ConnectFailed ==> !sockets.contains(peer),
    ensures
        link_action(event) == LinkAction::Read <==> link_sockets(sockets, peer, event).contains(
            peer,
        ),
        link_action(event) == LinkAction::Reconnect <==> !link_sockets(
            sockets,
            peer,
            event,
        ).contains(peer),
{
}

/// Messages for the client go to the client, whatever peers the node is connected to and whatever
/// happens on the connections to them; and no message for a peer goes to the client or to another
/// peer.
pub proof fn law_client_is_always_reached<M>(
    sockets: Set<u64>,
    peer: u64,
    event: LinkEvent<M>,
    receiver: u64,
)
    ensures
        send_route(sockets, 0) == SendRoute::Client,
        send_route(link_sockets(sockets, peer, event), 0) == SendRoute::Client,
        send_route(sockets, receiver) == SendRoute::Client ==> receiver == 0,
        receiver != 0 && sockets.contains(receiver) ==> send_route(sockets, receiver)
            == SendRoute::Peer(receiver),
        receiver != 0 && !sockets.contains(receiver) ==> send_route(sockets, receiver)
            == SendRoute::NotConnected(receiver),
{
}

/// Messages for a peer go out to it from when the connection to it is made until it is lost, and
/// what happens on the connection to one peer changes nothing for another.
pub proof fn law_messages_follow_links<M>(
    sockets: Set<u64>,
    peer: u64,
    event: LinkEvent<M>,
    receiver: u64,
)
    requires
        receiver != CLIENT,
    ensures
        receiver != peer ==> send_route(link_sockets(sockets, peer, event), receiver)
            == send_route(sockets, receiver),
        receiver == peer ==> send_route(link_sockets(sockets, peer, event), receiver) == (
        match event {
            LinkEvent::Connected => SendRoute::Peer(peer),
            LinkEvent::Closed | LinkEvent::ReadFailed => SendRoute::NotConnected(peer),
            _ => send_route(sockets, peer),
        }),
{
}

/// The connections of a node: which peers it is connected to, and what has come in.
pub struct Network<M> {
    pub pid: u64,
    pub nodes: Vec<u64>,
    pub sockets: HashSet<u64>,
    pub incoming_msg_buf: Vec<Message<M>>,
}

pub open spec fn api_addr(pid: u64) -> Seq<char> {
    "net.default.svc.cluster.local:800"@ + decimal(pid as nat)
}

pub open spec fn peer_addr(pid: u64, receiver: u64) -> Seq<char> {
    "net.default.svc.cluster.local:80"@ + decimal(pid as nat) + decimal(receiver as nat)
}

impl<M> Network<M> {
    /// The network of node `pid`, before any connection is made.
    pub fn new(pid: u64, nodes: Vec<u64>) -> (r: Network<M>)
        ensures
            r.pid == pid,
            r.nodes == nodes,
            r.sockets@ == Set::<u64>::empty(),
            r.incoming_msg_buf@ == Seq::<Message<M>>::empty(),
    {
        Network { pid, nodes, sockets: HashSet::new(), incoming_msg_buf: Vec::new() }
    }

    /// Where the client is reached.
    pub fn get_my_api_addr(&self) -> (r: String)
        ensures
            r@ == api_addr(self.pid),
    {
        let mut r = "net.default.svc.cluster.local:800".to_owned();
        push_decimal(&mut r, self.pid);
        r
    }

    /// Where a peer is reached.
    pub fn get_peer_addr(&self, receiver_pid: u64) -> (r: String)
        ensures
            r@ == peer_addr(self.pid, receiver_pid),
    {
        let mut r = "net.default.svc.cluster.local:80".to_owned();
        push_decimal(&mut r, self.pid);
        push_decimal(&mut r, receiver_pid);
        r
    }

    /// The peers to connect to, each with where it is reached.
    pub fn peer_addrs(&self) -> (r: Vec<(u64, String)>)
        ensures
            r@.len() == others(self.nodes@, self.pid).len(),
            forall|i: int|
                0 <= i < r@.len() ==> (#[trigger] r@[i]).0 == others(self.nodes@, self.pid)[i]
                    && r@[i].1@ == peer_addr(self.pid, r@[i].0),
    {
        let peers = peers_of(&self.nodes, self.pid);
        let mut r: Vec<(u64, String)> = Vec::new();
        let mut i: usize = 0;
        while i < peers.len()
            invariant
                i <= peers@.len(),
                peers@ == others(self.nodes@, self.pid),
                r@.len() == i,
                forall|j: int|
                    0 <= j < i ==> (#[trigger] r@[j]).0 == peers@[j] && r@[j].1@ == peer_addr(
                        self.pid,
                        r@[j].0,
                    ),
            decreases peers@.len() - i,
        {
            r.push((peers[i], self.get_peer_addr(peers[i])));
            i += 1;
        }
        r
    }

    /// Where a message for `receiver` goes.
    pub fn send(&self, receiver: u64) -> (r: SendRoute)
        ensures
            r == send_route(self.sockets@, receiver),
    {
        if receiver == CLIENT {
            SendRoute::Client
        } else if self.sockets.contains(&receiver) {
            SendRoute::Peer(receiver)
        } else {
            SendRoute::NotConnected(receiver)
        }
    }

    /// Takes in a message.
    pub fn receive(&mut self, msg: Message<M>)
        ensures
            final(self).incoming_msg_buf@ == link_buffer(
                old(self).incoming_msg_buf@,
                LinkEvent::Received(msg),
            ),
            final(self).incoming_msg_buf@ == old(self).incoming_msg_buf@.push(msg),
            final(self).sockets@ == old(self).sockets@,
            final(self).pid == old(self).pid,
            final(self).nodes == old(self).nodes,
    {
        self.incoming_msg_buf.push(msg);
    }

    /// All messages that came in since the last call, in the order in which they came.
    pub fn get_received(&mut self) -> (r: Vec<Message<M>>)
        ensures
            (r@, final(self).incoming_msg_buf@) == handed_out(old(self).incoming_msg_buf@),
            r@ == old(self).incoming_msg_buf@,
            final(self).incoming_msg_buf@ == Seq::<Message<M>>::empty(),
            final(self).sockets@ == old(self).sockets@,
            final(self).pid == old(self).pid,
            final(self).nodes == old(self).nodes,
    {
        let mut r: Vec<Message<M>> = Vec::new();
        std::mem::swap(&mut r, &mut self.incoming_msg_buf);
        r
    }

    /// Follows what happens on the connection to `peer`, and says what to do next: while it
    /// stands, read from it; once it is gone, connect again.
    pub fn link_event(&mut self, peer: u64, event: LinkEvent<M>) -> (r: LinkAction)
        ensures
            final(self).pid == old(self).pid,
            final(self).nodes == old(self).nodes,
            final(self).sockets@ == link_sockets(old(self).sockets@, peer, event),
            final(self).incoming_msg_buf@ == link_buffer(old(self).incoming_msg_buf@, event),
            r == link_action(event),
    {
        match event {
            LinkEvent::Connected => {
                self.sockets.insert(peer);
                LinkAction::Read
            },
            LinkEvent::Received(msg) => {
                self.receive(msg);
                LinkAction::Read
            },
            LinkEvent::Closed => {
                self.sockets.remove(&peer);
                LinkAction::Reconnect
            },
            LinkEvent::ReadFailed => {
                self.sockets.remove(&peer);
                LinkAction::Reconnect
            },
            LinkEvent::ConnectFailed => LinkAction::Reconnect,
        }
    }
}

/// A node reaches no two peers at one address.
pub proof fn law_peers_have_their_own_addresses(pid: u64, a: u64, b: u64)
    ensures
        a != b ==> peer_addr(pid, a) != peer_addr(pid, b),
        a != b ==> api_addr(a) != api_addr(b),
{
    let front = "net.default.svc.cluster.local:80"@ + decimal(pid as nat);
    let at = front.len() as int;
    assert(peer_addr(pid, a).skip(at) =~= decimal(a as nat));
    assert(peer_addr(pid, b).skip(at) =~= decimal(b as nat));
    let api = "net.default.svc.cluster.local:800"@.len() as int;
    assert(api_addr(a).skip(api) =~= decimal(a as nat));
    assert(api_addr(b).skip(api) =~= decimal(b as nat));
    law_decimal_reads_back(a);
    law_decimal_reads_back(b);
}

/// An address is the host and the port that the ids make: a node's client is at the port that the
/// node's id makes behind 800, and a peer at the one that the node's id and the peer's make behind
/// 80. The ids can be read back from it.
pub proof fn law_addresses_spell_the_ids(pid: u64, receiver: u64)
    ensures
        ({
            let host = "net.default.svc.cluster.local:800"@;
            let addr = api_addr(pid);
            &&& host.is_prefix_of(addr)
            &&& read_u64(addr.skip(host.len() as int)) == Some(pid)
            &&& addr.len() == host.len() + decimal(pid as nat).len()
        }),
        ({
            let host = "net.default.svc.cluster.local:80"@;
            let addr = peer_addr(pid, receiver);
            let mid = (host.len() + decimal(pid as nat).len()) as int;
            &&& host.is_prefix_of(addr)
            &&& mid <= addr.len()
            &&& read_u64(addr.subrange(host.len() as int, mid)) == Some(pid)
            &&& read_u64(addr.skip(mid)) == Some(receiver)
            &&& addr.len() == mid + decimal(receiver as nat).len()
        }),
{
    let own = "net.default.svc.cluster.local:800"@;
    assert(api_addr(pid).skip(own.len() as int) =~= decimal(pid as nat));
    let host = "net.default.svc.cluster.local:80"@;
    let mid = (host.len() + decimal(pid as nat).len()) as int;
    assert(peer_addr(pid, receiver).subrange(host.len() as int, mid) =~= decimal(pid as nat));
    assert(peer_addr(pid, receiver).skip(mid) =~= decimal(receiver as nat));
    law_decimal_reads_back(pid);
    law_decimal_reads_back(receiver);
}

} // verus!
