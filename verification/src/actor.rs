//! The network actor: the one process that all nodes and all clients are connected to.
//!
//! Each node reaches each of its peers over a pair of ports of the actor, one for either end, and
//! what comes in on the one goes out on the other. Clients' commands go to a node over that node's
//! client port.

use std::collections::{HashMap, HashSet};

use vstd::prelude::*;

use crate::command::{
    law_white_space_around_a_line, parse_command, parsed, port_readable, typable, typed,
    ParseCommandError,
};
use crate::kv::{CommandView, KVCommand};
use crate::network::Message;
use crate::text::blank;

verus! {

broadcast use vstd::std_specs::hash::group_hash_axioms;

/// How long the actor waits before it tries again to deliver a message.
pub const DELIVERY_RETRY_MILLIS: u64 = 100;

/// How long the actor gives the cluster to answer a command.
pub const RESPONSE_WAIT_MILLIS: u64 = 50;

/// Where a command goes.
#[derive(Clone, Copy, Debug, PartialEq, Eq)]
pub enum CommandRoute {
    /// To the node behind this client port.
    Node(u64),
    /// Nowhere: no node is connected.
    NoNodeReachable,
    /// Nowhere: the node that was asked for is not connected.
    NodeNotConnected,
}

/// What to do with a message between nodes.
#[derive(Clone, Copy, Debug, PartialEq, Eq)]
pub enum Delivery {
    /// Send it out.
    Send,
    /// Keep it, and try again later.
    Wait,
}

/// A message on its way between nodes: the port that it came in on, the port that it goes out on,
/// and its bytes.
#[derive(Clone, Debug, PartialEq, Eq)]
pub struct Parcel {
    pub from: u64,
    pub to: u64,
    pub data: Vec<u8>,
}

pub struct ParcelView {
    pub from: u64,
    pub to: u64,
    pub data: Seq<u8>,
}

impl View for Parcel {
    type V = ParcelView;

    open spec fn view(&self) -> ParcelView {
        ParcelView { from: self.from, to: self.to, data: self.data@ }
    }
}

pub open spec fn parcels(v: Seq<Parcel>) -> Seq<ParcelView> {
    v.map_values(|p: Parcel| p@)
}

/// What is heard from the node at a client port.
#[derive(Clone, Copy, Debug, PartialEq, Eq)]
pub enum ClientSign {
    /// A sign of life, which only the leader sends to its client.
    Heartbeat,
    /// Any other message.
    Message,
    /// The node is gone.
    Disconnected,
}

/// What a message from the node at a client port is a sign of.
pub open spec fn message_sign<M>(msg: Message<M>) -> ClientSign {
    if msg is Debug {
        ClientSign::Heartbeat
    } else {
        ClientSign::Message
    }
}

/// What a message from the node at a client port is a sign of.
pub fn sign_of<M>(msg: &Message<M>) -> (r: ClientSign)
    ensures
        r == message_sign(*msg),
        r == (if msg is Debug {
            ClientSign::Heartbeat
        } else {
            ClientSign::Message
        }),
{
    match msg {
        Message::Debug(_) => ClientSign::Heartbeat,
        _ => ClientSign::Message,
    }
}

/// The client port of the leader, as far as it is known, after a sign from the node at `port`,
/// where `known` is what was known before.
pub open spec fn leader_port(known: Option<u64>, port: u64, sign: ClientSign) -> Option<u64> {
    match sign {
        ClientSign::Heartbeat => Some(port),
        ClientSign::Message => known,
        ClientSign::Disconnected => if known == Some(port) {
            None
        } else {
            known
        },
    }
}

/// Follows where the leader is by the signs that come in on the client ports.
pub fn follow_leader(known: Option<u64>, port: u64, sign: ClientSign) -> (r: Option<u64>)
    ensures
        r == leader_port(known, port, sign),
{
    match sign {
        ClientSign::Heartbeat => Some(port),
        ClientSign::Message => known,
        ClientSign::Disconnected => if known == Some(port) {
            None
        } else {
            known
        },
    }
}

/// The outcome of a read on a port between nodes.
#[derive(Clone, Debug, PartialEq, Eq)]
pub enum LinkRead {
    Data(Vec<u8>),
    Eof,
    Failed,
}

/// What to do after a read on a port between nodes.
#[derive(Clone, Debug, PartialEq, Eq)]
pub enum LinkStep {
    /// Pass this on, and read on.
    Forward(Parcel),
    /// Read on.
    Skip,
    /// Give the connection up, and wait for the next one.
    Close,
}

/// The ports of the actor, and what is connected to them.
pub struct Switchboard {
    pub client_ports: Vec<u64>,
    pub port_mappings: HashMap<u64, u64>,
    /// The client ports that a node is connected to.
    pub api_sockets: HashSet<u64>,
    /// The ports between nodes that messages can be sent out on.
    pub out_channels: HashSet<u64>,
}

pub struct SwitchboardView {
    pub client_ports: Seq<u64>,
    pub port_mappings: Map<u64, u64>,
    pub api_sockets: Set<u64>,
    pub out_channels: Set<u64>,
}

impl View for Switchboard {
    type V = SwitchboardView;

    open spec fn view(&self) -> SwitchboardView {
        SwitchboardView {
            client_ports: self.client_ports@,
            port_mappings: self.port_mappings@,
            api_sockets: self.api_sockets@,
            out_channels: self.out_channels@,
        }
    }
}

/// The mapping that a list of ports and their other ends comes to; of two entries for one port
/// the later counts.
pub open spec fn mapping(list: Seq<(u64, u64)>) -> Map<u64, u64>
    decreases list.len(),
{
    if list.len() == 0 {
        Map::empty()
    } else {
        mapping(list.drop_last()).insert(list.last().0, list.last().1)
    }
}

/// A port leads to the end that stands last for it in the list, and a port that is not in the list
/// leads nowhere.
pub proof fn law_mapping(before: Seq<(u64, u64)>, port: u64, end: u64, after: Seq<(u64, u64)>)
    requires
        forall|i: int| 0 <= i < after.len() ==> (#[trigger] after[i]).0 != port,
    ensures
        mapping(before.push((port, end)) + after).contains_key(port),
        mapping(before.push((port, end)) + after)[port] == end,
        !mapping(after).contains_key(port),
    decreases after.len(),
{
    let upto = before.push((port, end));
    if after.len() == 0 {
        assert(upto + after =~= upto);
        assert(upto.drop_last() =~= before);
    } else {
        assert((upto + after).drop_last() =~= upto + after.drop_last());
        assert(after[after.len() - 1].0 != port);
        assert forall|i: int| 0 <= i < after.drop_last().len() implies (
        #[trigger] after.drop_last()[i]).0 != port by {
            assert(after.drop_last()[i] == after[i]);
        }
        law_mapping(before, port, end, after.drop_last());
    }
}

/// A switchboard that nothing is connected to yet.
pub open spec fn fresh_board(client_ports: Seq<u64>, list: Seq<(u64, u64)>) -> SwitchboardView {
    SwitchboardView {
        client_ports,
        port_mappings: mapping(list),
        api_sockets: Set::empty(),
        out_channels: mapping(list).dom(),
    }
}

pub open spec fn with_client(s: SwitchboardView, port: u64) -> SwitchboardView {
    SwitchboardView { api_sockets: s.api_sockets.insert(port), ..s }
}

pub open spec fn without_client(s: SwitchboardView, port: u64) -> SwitchboardView {
    SwitchboardView { api_sockets: s.api_sockets.remove(port), ..s }
}

/// What to do after a read on a port between nodes, where `mappings` gives the other ends.
pub open spec fn link_step(mappings: Map<u64, u64>, port: u64, read: LinkRead) -> LinkStep {
    match read {
        LinkRead::Data(data) => if mappings.contains_key(port) {
            LinkStep::Forward(Parcel { from: port, to: mappings[port], data })
        } else {
            LinkStep::Skip
        },
        _ => LinkStep::Close,
    }
}

/// What a typed line comes to: a command and where it goes, or why it is not a command.
pub open spec fn taken(s: SwitchboardView, line: Seq<char>, leader: Option<u64>) -> Result<
    (CommandView, CommandRoute),
    Seq<char>,
> {
    match parsed(line) {
        Ok((c, port)) => Ok((c, command_route(s, port, leader))),
        Err(reason) => Err(reason),
    }
}

pub open spec fn taken_view(r: Result<(KVCommand, CommandRoute), ParseCommandError>) -> Result<
    (CommandView, CommandRoute),
    Seq<char>,
> {
    match r {
        Ok((command, route)) => Ok((command@, route)),
        Err(e) => Err(e.0@),
    }
}

/// Where a command goes, where `leader` is the client port of the leader, as far as it is known.
/// One for no particular node goes to the leader. Where the leader is not known or not connected,
/// it goes to the first node in the list of ports that is.
pub open spec fn command_route(
    s: SwitchboardView,
    port: Option<u64>,
    leader: Option<u64>,
) -> CommandRoute {
    match port {
        Some(p) => if s.api_sockets.contains(p) {
            CommandRoute::Node(p)
        } else {
            CommandRoute::NodeNotConnected
        },
        None => if leader is Some && s.api_sockets.contains(leader->0) {
            CommandRoute::Node(leader->0)
        } else {
            first_connected(s.client_ports, s.api_sockets)
        },
    }
}

/// The first of the ports that a node is connected to.
pub open spec fn first_connected(ports: Seq<u64>, connected: Set<u64>) -> CommandRoute
    decreases ports.len(),
{
    if ports.len() == 0 {
        CommandRoute::NoNodeReachable
    } else if connected.contains(ports[0]) {
        CommandRoute::Node(ports[0])
    } else {
        first_connected(ports.drop_first(), connected)
    }
}

/// What to do with a message that goes out on `to_port`.
pub open spec fn delivery(s: SwitchboardView, to_port: u64) -> Delivery {
    if s.out_channels.contains(to_port) {
        Delivery::Send
    } else {
        Delivery::Wait
    }
}

/// Whether messages from `from_port` to `to_port` are dropped.
pub fn is_partitioned(partitions: &Vec<(u64, u64)>, from_port: u64, to_port: u64) -> (r: bool)
    ensures
        r == partitions@.contains((from_port, to_port)),
{
    let mut i: usize = 0;
    while i < partitions.len()
        invariant
            i <= partitions@.len(),
            forall|j: int| 0 <= j < i ==> partitions@[j] != (from_port, to_port),
        decreases partitions@.len() - i,
    {
        if partitions[i].0 == from_port && partitions[i].1 == to_port {
            assert(partitions@[i as int] == (from_port, to_port));
            return true;
        }
        i += 1;
    }
    false
}

/// The messages that are not dropped, in order.
pub open spec fn let_through(partitions: Seq<(u64, u64)>, ps: Seq<ParcelView>) -> Seq<ParcelView>
    decreases ps.len(),
{
    if ps.len() == 0 {
        Seq::empty()
    } else {
        let before = let_through(partitions, ps.drop_last());
        if partitions.contains((ps.last().from, ps.last().to)) {
            before
        } else {
            before.push(ps.last())
        }
    }
}

/// Messages let through in two runs are those let through in one.
pub proof fn law_let_through_split(
    partitions: Seq<(u64, u64)>,
    a: Seq<ParcelView>,
    b: Seq<ParcelView>,
)
    ensures
        let_through(partitions, a + b) == let_through(partitions, a) + let_through(partitions, b),
    decreases b.len(),
{
    if b.len() == 0 {
        assert(a + b =~= a);
    } else {
        assert((a + b).drop_last() =~= a + b.drop_last());
        law_let_through_split(partitions, a, b.drop_last());
    }
    assert(let_through(partitions, a + b) =~= let_through(partitions, a) + let_through(
        partitions,
        b,
    ));
}

/// Without partitions nothing is dropped.
pub proof fn law_no_partition_drops_nothing(ps: Seq<ParcelView>)
    ensures
        let_through(Seq::empty(), ps) == ps,
    decreases ps.len(),
{
    if ps.len() > 0 {
        law_no_partition_drops_nothing(ps.drop_last());
    }
    assert(let_through(Seq::empty(), ps) =~= ps);
}

/// Puts what has come in behind the queue, in order, but for messages between ports that are
/// partitioned from each other: those are dropped.
pub fn enqueue(partitions: &Vec<(u64, u64)>, arrived: Vec<Parcel>, queue: &mut Vec<Parcel>)
    ensures
        parcels(final(queue)@) == parcels(old(queue)@) + let_through(
            partitions@,
            parcels(arrived@),
        ),
{
    let ghost start = parcels(queue@);
    let ghost ps = parcels(arrived@);
    assert(start + let_through(partitions@, ps.take(0)) =~= start);
    for parcel in it: arrived
        invariant
            it.seq() == arrived@,
            ps == parcels(arrived@),
            parcels(queue@) == start + let_through(partitions@, ps.take(it.index() as int)),
    {
        let ghost i = it.index() as int;
        let ghost before = parcels(queue@);
        assert(ps.take(i + 1).drop_last() =~= ps.take(i));
        assert(ps.take(i + 1).last() == parcel@);
        if !is_partitioned(partitions, parcel.from, parcel.to) {
            queue.push(parcel);
            assert(parcels(queue@) =~= before.push(parcel@));
        }
        assert(parcels(queue@) =~= start + let_through(partitions@, ps.take(i + 1)));
    }
    assert(ps.take(ps.len() as int) =~= ps);
}

/// How many messages from the front of the queue can be sent: those before the first one that has
/// to wait.
pub open spec fn deliverable(s: SwitchboardView, queue: Seq<ParcelView>) -> nat
    decreases queue.len(),
{
    if queue.len() == 0 || delivery(s, queue[0].to) == Delivery::Wait {
        0
    } else {
        1 + deliverable(s, queue.drop_first())
    }
}

pub open spec fn open_link(s: SwitchboardView, port: u64) -> SwitchboardView {
    SwitchboardView { out_channels: s.out_channels.insert(port), ..s }
}

pub open spec fn closed_link(s: SwitchboardView, port: u64) -> SwitchboardView {
    SwitchboardView { out_channels: s.out_channels.remove(port), ..s }
}

/// A message for a node that is gone is kept until a node connects to its port again, and what
/// happens at one port changes nothing at another.
pub proof fn law_messages_wait_for_their_node(s: SwitchboardView, port: u64, other: u64)
    requires
        other != port,
    ensures
        delivery(closed_link(s, port), port) == Delivery::Wait,
        delivery(open_link(closed_link(s, port), port), port) == Delivery::Send,
        delivery(closed_link(s, port), other) == delivery(s, other),
        delivery(open_link(s, port), other) == delivery(s, other),
{
}

impl Switchboard {
    /// A switchboard that nothing is connected to yet. Until a node first connects to one of the
    /// ports between nodes, messages can be sent out there; nobody gets them.
    pub fn new(client_ports: Vec<u64>, port_list: Vec<(u64, u64)>) -> (r: Switchboard)
        ensures
            r@ == fresh_board(client_ports@, port_list@),
    {
        let mut port_mappings: HashMap<u64, u64> = HashMap::new();
        let mut out_channels: HashSet<u64> = HashSet::new();
        let mut i: usize = 0;
        assert(out_channels@ =~= mapping(port_list@.take(0)).dom());
        while i < port_list.len()
            invariant
                i <= port_list@.len(),
                port_mappings@ == mapping(port_list@.take(i as int)),
                out_channels@ == mapping(port_list@.take(i as int)).dom(),
            decreases port_list@.len() - i,
        {
            assert(port_list@.take(i + 1).drop_last() =~= port_list@.take(i as int));
            let (port, other_end): (u64, u64) = port_list[i];
            port_mappings.insert(port, other_end);
            out_channels.insert(port);
            assert(out_channels@ =~= mapping(port_list@.take(i + 1)).dom());
            i += 1;
        }
        assert(port_list@.take(port_list@.len() as int) =~= port_list@);
        Switchboard { client_ports, port_mappings, api_sockets: HashSet::new(), out_channels }
    }

    /// A node has connected to a client port.
    pub fn client_connected(&mut self, port: u64)
        ensures
            final(self)@ == with_client(old(self)@, port),
    {
        self.api_sockets.insert(port);
    }

    /// The node at a client port is gone.
    pub fn client_disconnected(&mut self, port: u64)
        ensures
            final(self)@ == without_client(old(self)@, port),
    {
        self.api_sockets.remove(&port);
    }

    /// Where a command goes that was typed with `port` behind it, or with no port. `leader` is the
    /// client port of the leader, as far as it is known.
    pub fn route_command(&self, port: Option<u64>, leader: Option<u64>) -> (r: CommandRoute)
        ensures
            r == command_route(self@, port, leader),
            port is None && leader is Some && self@.api_sockets.contains(leader->0) ==> r
                == CommandRoute::Node(leader->0),
    {
        match port {
            Some(p) => if self.api_sockets.contains(&p) {
                CommandRoute::Node(p)
            } else {
                CommandRoute::NodeNotConnected
            },
            None => {
                if let Some(p) = leader {
                    if self.api_sockets.contains(&p) {
                        return CommandRoute::Node(p);
                    }
                }
                let ghost ports = self.client_ports@;
                let mut i: usize = 0;
                assert(ports.skip(0) =~= ports);
                while i < self.client_ports.len()
                    invariant
                        port is None,
                        leader is None || !self.api_sockets@.contains(leader->0),
                        i <= ports.len(),
                        ports == self.client_ports@,
                        first_connected(ports, self.api_sockets@) == first_connected(
                            ports.skip(i as int),
                            self.api_sockets@,
                        ),
                    decreases ports.len() - i,
                {
                    assert(ports.skip(i as int).drop_first() =~= ports.skip(i + 1));
                    if self.api_sockets.contains(&self.client_ports[i]) {
                        return CommandRoute::Node(self.client_ports[i]);
                    }
                    i += 1;
                }
                CommandRoute::NoNodeReachable
            },
        }
    }

    /// What a typed line comes to: a command and where it goes, or why it is not a command.
    /// `leader` is the client port of the leader, as far as it is known.
    pub fn take_line(&self, line: String, leader: Option<u64>) -> (r: Result<
        (KVCommand, CommandRoute),
        ParseCommandError,
    >)
        requires
            port_readable(line@),
        ensures
            taken_view(r) == taken(self@, line@, leader),
            match parsed(line@) {
                Ok((c, port)) => r is Ok && (r->Ok_0).0@ == c && (r->Ok_0).1 == command_route(
                    self@,
                    port,
                    leader,
                ),
                Err(reason) => r is Err && (r->Err_0).0@ == reason,
            },
    {
        match parse_command(line) {
            Ok((command, port)) => {
                let route = self.route_command(port, leader);
                Ok((command, route))
            },
            Err(e) => Err(e),
        }
    }

    /// A node has connected to a port between nodes.
    pub fn link_opened(&mut self, port: u64)
        ensures
            final(self)@ == open_link(old(self)@, port),
    {
        self.out_channels.insert(port);
    }

    /// The node at a port between nodes is gone.
    pub fn link_closed(&mut self, port: u64)
        ensures
            final(self)@ == closed_link(old(self)@, port),
    {
        self.out_channels.remove(&port);
    }

    /// What to do after a read on a port between nodes: pass on what was read to the other end, or
    /// give the connection up once it has ended.
    pub fn link_read(&self, port: u64, read: LinkRead) -> (r: LinkStep)
        ensures
            r == link_step(self@.port_mappings, port, read),
    {
        match read {
            LinkRead::Data(data) => match self.port_mappings.get(&port) {
                Some(to) => LinkStep::Forward(Parcel { from: port, to: *to, data }),
                None => LinkStep::Skip,
            },
            LinkRead::Eof => LinkStep::Close,
            LinkRead::Failed => LinkStep::Close,
        }
    }

    /// What to do with a message that goes out on `to_port`.
    pub fn deliver(&self, to_port: u64) -> (r: Delivery)
        ensures
            r == delivery(self@, to_port),
    {
        if self.out_channels.contains(&to_port) {
            Delivery::Send
        } else {
            Delivery::Wait
        }
    }

    /// Takes out of the queue what can be sent now: from its front, in order, up to the first
    /// message whose port has nobody connected to it. That one and all behind it stay, wherever
    /// those go.
    pub fn deliver_queue(&self, queue: &mut Vec<Parcel>) -> (sent: Vec<Parcel>)
        ensures
            sent@ == old(queue)@.take(deliverable(self@, parcels(old(queue)@)) as int),
            final(queue)@ == old(queue)@.skip(deliverable(self@, parcels(old(queue)@)) as int),
            forall|i: int|
                0 <= i < sent@.len() ==> delivery(self@, (#[trigger] sent@[i]).to)
                    == Delivery::Send,
            final(queue)@.len() > 0 ==> delivery(self@, final(queue)@[0].to) == Delivery::Wait,
    {
        let ghost all = queue@;
        let ghost ps = parcels(queue@);
        let mut n: usize = 0;
        assert(ps.skip(0) =~= ps);
        while n < queue.len() && matches!(self.deliver(queue[n].to), Delivery::Send)
            invariant
                queue@ == all,
                ps == parcels(all),
                n <= all.len(),
                deliverable(self@, ps) == n + deliverable(self@, ps.skip(n as int)),
                forall|i: int|
                    0 <= i < n ==> delivery(self@, (#[trigger] all[i]).to) == Delivery::Send,
            decreases all.len() - n,
        {
            assert(ps.skip(n as int).drop_first() =~= ps.skip(n + 1));
            n += 1;
        }
        let mut sent: Vec<Parcel> = queue.split_off(n);
        std::mem::swap(queue, &mut sent);
        assert(sent@ =~= all.take(n as int));
        assert(queue@ =~= all.skip(n as int));
        sent
    }
}

/// A command for no particular node goes to the leader, wherever that stands in the list of ports,
/// as long as it is known and connected. It is known from its sign of life on, until its connection
/// is lost or another node is heard of as the leader; other messages change nothing.
pub proof fn law_command_goes_to_the_leader(
    s: SwitchboardView,
    known: Option<u64>,
    port: u64,
    other: u64,
)
    requires
        s.api_sockets.contains(port),
        other != port,
    ensures
        ({
            let heard = leader_port(known, port, ClientSign::Heartbeat);
            let later = leader_port(heard, other, ClientSign::Message);
            let still = leader_port(later, other, ClientSign::Disconnected);
            &&& command_route(s, None, heard) == CommandRoute::Node(port)
            &&& command_route(s, None, later) == CommandRoute::Node(port)
            &&& command_route(s, None, still) == CommandRoute::Node(port)
            &&& leader_port(still, other, ClientSign::Heartbeat) == Some(other)
            &&& leader_port(still, port, ClientSign::Disconnected) is None
        }),
{
}

/// A command for no particular node, while the leader is not known, reaches a connected node
/// whenever there is one, and of those the one whose port stands first in the list.
pub proof fn law_command_finds_a_node(ports: Seq<u64>, connected: Set<u64>)
    ensures
        match first_connected(ports, connected) {
            CommandRoute::Node(p) => exists|i: int|
                {
                    &&& 0 <= i < ports.len()
                    &&& #[trigger] ports[i] == p
                    &&& connected.contains(p)
                    &&& forall|j: int| 0 <= j < i ==> !connected.contains(#[trigger] ports[j])
                },
            CommandRoute::NoNodeReachable => forall|j: int|
                0 <= j < ports.len() ==> !connected.contains(#[trigger] ports[j]),
            CommandRoute::NodeNotConnected => false,
        },
    decreases ports.len(),
{
    if ports.len() > 0 {
        if connected.contains(ports[0]) {
            assert(ports[0] == ports[0]);
        } else {
            let rest = ports.drop_first();
            law_command_finds_a_node(rest, connected);
            match first_connected(rest, connected) {
                CommandRoute::Node(p) => {
                    let i = choose|i: int|
                        {
                            &&& 0 <= i < rest.len()
                            &&& #[trigger] rest[i] == p
                            &&& connected.contains(p)
                            &&& forall|j: int|
                                0 <= j < i ==> !connected.contains(#[trigger] rest[j])
                        };
                    assert(ports[i + 1] == p);
                    assert forall|j: int| 0 <= j < i + 1 implies !connected.contains(
                        #[trigger] ports[j],
                    ) by {
                        if j > 0 {
                            assert(ports[j] == rest[j - 1]);
                        }
                    }
                },
                _ => {
                    assert forall|j: int| 0 <= j < ports.len() implies !connected.contains(
                        #[trigger] ports[j],
                    ) by {
                        if j > 0 {
                            assert(ports[j] == rest[j - 1]);
                        }
                    }
                },
            }
        }
    }
}

proof fn lemma_deliverable(s: SwitchboardView, queue: Seq<ParcelView>)
    ensures
        deliverable(s, queue) <= queue.len(),
        forall|i: int|
            0 <= i < queue.len() && delivery(s, (#[trigger] queue[i]).to) == Delivery::Wait
                ==> deliverable(s, queue) <= i,
        deliverable(s, queue) < queue.len() ==> delivery(
            s,
            queue[deliverable(s, queue) as int].to,
        ) == Delivery::Wait,
    decreases queue.len(),
{
    if queue.len() > 0 {
        let rest = queue.drop_first();
        lemma_deliverable(s, rest);
        assert forall|i: int|
            0 <= i < queue.len() && delivery(s, (#[trigger] queue[i]).to)
                == Delivery::Wait implies deliverable(s, queue) <= i by {
            if i > 0 {
                assert(rest[i - 1] == queue[i]);
            }
        }
    }
}

/// One round of the actor's work on the queue: what the switchboard is then, and what was put behind
/// the queue since the round before.
pub struct Round {
    pub board: SwitchboardView,
    pub arrived: Seq<ParcelView>,
}

/// All that came in during the rounds, in order.
pub open spec fn arrived(rounds: Seq<Round>) -> Seq<ParcelView>
    decreases rounds.len(),
{
    if rounds.len() == 0 {
        Seq::empty()
    } else {
        arrived(rounds.drop_last()) + rounds.last().arrived
    }
}

/// The queue that the last of the rounds finds.
pub open spec fn found_queue(rounds: Seq<Round>) -> Seq<ParcelView>
    decreases rounds.len(), 0nat,
{
    if rounds.len() == 0 {
        Seq::empty()
    } else {
        left_queue(rounds.drop_last()) + rounds.last().arrived
    }
}

/// The queue that the rounds leave.
pub open spec fn left_queue(rounds: Seq<Round>) -> Seq<ParcelView>
    decreases rounds.len(), 1nat,
{
    if rounds.len() == 0 {
        Seq::empty()
    } else {
        let queue = found_queue(rounds);
        queue.skip(deliverable(rounds.last().board, queue) as int)
    }
}

/// All that is sent in the rounds, in order.
pub open spec fn sent(rounds: Seq<Round>) -> Seq<ParcelView>
    decreases rounds.len(),
{
    if rounds.len() == 0 {
        Seq::empty()
    } else {
        let queue = found_queue(rounds);
        sent(rounds.drop_last()) + queue.take(deliverable(rounds.last().board, queue) as int)
    }
}

/// Whatever happens at the ports in the meantime, each message goes out at most once and in the
/// order in which they came in: what is sent and what is left make up what came in. A round leaves
/// nothing but a message for a port that nobody is connected to, and what is behind it. So where it
/// finds every port connected that a message in the queue goes to, nothing is left.
pub proof fn law_queue_keeps_order(rounds: Seq<Round>)
    ensures
        sent(rounds) + left_queue(rounds) == arrived(rounds),
        rounds.len() > 0 && left_queue(rounds).len() > 0 ==> delivery(
            rounds.last().board,
            left_queue(rounds)[0].to,
        ) == Delivery::Wait,
        rounds.len() > 0 && (forall|i: int|
            0 <= i < found_queue(rounds).len() ==> delivery(
                rounds.last().board,
                (#[trigger] found_queue(rounds)[i]).to,
            ) == Delivery::Send) ==> sent(rounds) == arrived(rounds),
    decreases rounds.len(),
{
    if rounds.len() > 0 {
        let queue = found_queue(rounds);
        law_queue_keeps_order(rounds.drop_last());
        lemma_deliverable(rounds.last().board, queue);
        assert(sent(rounds) + left_queue(rounds) =~= sent(rounds.drop_last()) + queue);
        assert(sent(rounds.drop_last()) + queue =~= arrived(rounds));
        if deliverable(rounds.last().board, queue) == queue.len() {
            assert(left_queue(rounds) =~= Seq::empty());
            assert(sent(rounds) =~= sent(rounds) + left_queue(rounds));
        }
    } else {
        assert(sent(rounds) + left_queue(rounds) =~= arrived(rounds));
    }
}

/// A message for a port that nobody is connected to holds up all messages behind it: as long as
/// nobody connects to that port, neither it nor any message that came in after it is sent, wherever
/// that goes.
pub proof fn law_waiting_message_holds_up_the_queue(rounds: Seq<Round>, k: int)
    requires
        0 <= k < arrived(rounds).len(),
        forall|i: int|
            0 <= i < rounds.len() ==> delivery((#[trigger] rounds[i]).board, arrived(rounds)[k].to)
                == Delivery::Wait,
    ensures
        sent(rounds).len() <= k,
    decreases rounds.len(),
{
    let before = rounds.drop_last();
    let queue = found_queue(rounds);
    law_queue_keeps_order(before);
    lemma_deliverable(rounds.last().board, queue);
    assert(rounds[rounds.len() - 1] == rounds.last());
    assert(sent(before) + queue =~= arrived(rounds));
    if k < arrived(before).len() {
        assert(arrived(before)[k] == arrived(rounds)[k]);
        assert forall|i: int| 0 <= i < before.len() implies delivery(
            (#[trigger] before[i]).board,
            arrived(before)[k].to,
        ) == Delivery::Wait by {
            assert(before[i] == rounds[i]);
        }
        law_waiting_message_holds_up_the_queue(before, k);
    }
    assert(sent(before).len() <= k);
    assert(queue[k - sent(before).len()] == arrived(rounds)[k]);
}

/// A line that comes in on a port between nodes.
pub struct Line {
    pub port: u64,
    pub data: Seq<u8>,
}

/// What lines are passed on as: each to the other end of its port, as it is.
pub open spec fn passed_on(mappings: Map<u64, u64>, lines: Seq<Line>) -> Seq<ParcelView>
    decreases lines.len(),
{
    if lines.len() == 0 {
        Seq::empty()
    } else {
        let before = passed_on(mappings, lines.drop_last());
        let line = lines.last();
        if mappings.contains_key(line.port) {
            before.push(
                ParcelView { from: line.port, to: mappings[line.port], data: line.data },
            )
        } else {
            before
        }
    }
}

/// The lines among `lines` that came in on `port`, in order.
pub open spec fn lines_of(lines: Seq<Line>, port: u64) -> Seq<Seq<u8>>
    decreases lines.len(),
{
    if lines.len() == 0 {
        Seq::empty()
    } else {
        let before = lines_of(lines.drop_last(), port);
        if lines.last().port == port {
            before.push(lines.last().data)
        } else {
            before
        }
    }
}

/// The bytes of those messages that came in on `from`, in order.
pub open spec fn data_from(ps: Seq<ParcelView>, from: u64) -> Seq<Seq<u8>>
    decreases ps.len(),
{
    if ps.len() == 0 {
        Seq::empty()
    } else {
        let before = data_from(ps.drop_last(), from);
        if ps.last().from == from {
            before.push(ps.last().data)
        } else {
            before
        }
    }
}

proof fn lemma_passed_on(mappings: Map<u64, u64>, lines: Seq<Line>, port: u64)
    requires
        mappings.contains_key(port),
    ensures
        data_from(passed_on(mappings, lines), port) == lines_of(lines, port),
        forall|i: int|
            0 <= i < passed_on(mappings, lines).len() && (#[trigger] passed_on(
                mappings,
                lines,
            )[i]).from == port ==> passed_on(mappings, lines)[i].to == mappings[port],
    decreases lines.len(),
{
    if lines.len() > 0 {
        let before = passed_on(mappings, lines.drop_last());
        let all = passed_on(mappings, lines);
        lemma_passed_on(mappings, lines.drop_last(), port);
        if mappings.contains_key(lines.last().port) {
            assert(all.drop_last() =~= before);
            assert forall|i: int| 0 <= i < all.len() && (#[trigger] all[i]).from
                == port implies all[i].to == mappings[port] by {
                if i < before.len() {
                    assert(all[i] == before[i]);
                }
            }
        }
    }
}

proof fn lemma_data_from_split(a: Seq<ParcelView>, b: Seq<ParcelView>, from: u64)
    ensures
        data_from(a + b, from) == data_from(a, from) + data_from(b, from),
    decreases b.len(),
{
    if b.len() == 0 {
        assert(a + b =~= a);
    } else {
        assert((a + b).drop_last() =~= a + b.drop_last());
        lemma_data_from_split(a, b.drop_last(), from);
    }
    assert(data_from(a + b, from) =~= data_from(a, from) + data_from(b, from));
}

proof fn lemma_let_through(partitions: Seq<(u64, u64)>, ps: Seq<ParcelView>, from: u64, to: u64)
    requires
        forall|i: int| 0 <= i < ps.len() && (#[trigger] ps[i]).from == from ==> ps[i].to == to,
    ensures
        data_from(let_through(partitions, ps), from) == if partitions.contains((from, to)) {
            Seq::empty()
        } else {
            data_from(ps, from)
        },
        forall|i: int|
            0 <= i < let_through(partitions, ps).len() && (#[trigger] let_through(
                partitions,
                ps,
            )[i]).from == from ==> let_through(partitions, ps)[i].to == to,
    decreases ps.len(),
{
    if ps.len() > 0 {
        let short = ps.drop_last();
        assert forall|i: int| 0 <= i < short.len() && (#[trigger] short[i]).from
            == from implies short[i].to == to by {
            assert(short[i] == ps[i]);
        }
        lemma_let_through(partitions, short, from, to);
        let before = let_through(partitions, short);
        let last = ps[ps.len() - 1];
        assert(before.push(last).drop_last() =~= before);
    }
}

/// The lines that come in on a port go out on its other end and on no other port, each at most
/// once, unchanged, and in the order in which they came in, whatever comes in on other ports. After
/// a round either all of them have gone out, or at the front of the queue a message waits for a port
/// that nobody is connected to. Of a port that is partitioned from its other end nothing goes out.
pub proof fn law_lines_come_out_in_order(
    mappings: Map<u64, u64>,
    partitions: Seq<(u64, u64)>,
    rounds: Seq<Round>,
    lines: Seq<Line>,
    port: u64,
)
    requires
        mappings.contains_key(port),
        arrived(rounds) == let_through(partitions, passed_on(mappings, lines)),
    ensures
        data_from(sent(rounds), port).is_prefix_of(lines_of(lines, port)),
        partitions.contains((port, mappings[port])) ==> data_from(sent(rounds), port).len() == 0,
        forall|i: int|
            0 <= i < sent(rounds).len() && (#[trigger] sent(rounds)[i]).from == port ==> sent(
                rounds,
            )[i].to == mappings[port],
        rounds.len() > 0 && !partitions.contains((port, mappings[port])) ==> (data_from(
            sent(rounds),
            port,
        ) == lines_of(lines, port) || (left_queue(rounds).len() > 0 && delivery(
            rounds.last().board,
            left_queue(rounds)[0].to,
        ) == Delivery::Wait)),
        rounds.len() > 0 && !partitions.contains((port, mappings[port])) && (forall|i: int|
            0 <= i < found_queue(rounds).len() ==> delivery(
                rounds.last().board,
                (#[trigger] found_queue(rounds)[i]).to,
            ) == Delivery::Send) ==> data_from(sent(rounds), port) == lines_of(lines, port),
{
    law_queue_keeps_order(rounds);
    lemma_passed_on(mappings, lines, port);
    lemma_let_through(partitions, passed_on(mappings, lines), port, mappings[port]);
    lemma_data_from_split(sent(rounds), left_queue(rounds), port);
    let out = data_from(sent(rounds), port);
    let kept = data_from(left_queue(rounds), port);
    assert((out + kept).len() == out.len() + kept.len());
    if partitions.contains((port, mappings[port])) {
        assert(out =~= Seq::empty());
    } else {
        assert(out + kept == lines_of(lines, port));
    }
    if left_queue(rounds).len() == 0 {
        assert(sent(rounds) + left_queue(rounds) =~= sent(rounds));
    }
    assert forall|i: int| 0 <= i < sent(rounds).len() && (#[trigger] sent(rounds)[i]).from
        == port implies sent(rounds)[i].to == mappings[port] by {
        assert(arrived(rounds)[i] == sent(rounds)[i]);
    }
}

/// A command for a node goes to that node and to no other, whoever leads and whichever other nodes
/// are connected; where that node is not connected it goes nowhere.
pub proof fn law_command_heeds_its_port(
    s: SwitchboardView,
    port: u64,
    leader: Option<u64>,
    other: u64,
)
    ensures
        s.api_sockets.contains(port) ==> command_route(s, Some(port), leader)
            == CommandRoute::Node(port),
        !s.api_sockets.contains(port) ==> command_route(s, Some(port), leader)
            == CommandRoute::NodeNotConnected,
        other != port ==> command_route(s, Some(port), leader) != CommandRoute::Node(other),
{
}

/// A command for no particular node goes, where the leader is not known or not connected, to the
/// node whose port stands first in the list among those that are connected, and nowhere only if
/// none of the ports in the list has a node.
pub proof fn law_command_without_a_leader(s: SwitchboardView, leader: Option<u64>)
    requires
        leader is None || !s.api_sockets.contains(leader->0),
    ensures
        match command_route(s, None, leader) {
            CommandRoute::Node(p) => exists|i: int|
                {
                    &&& 0 <= i < s.client_ports.len()
                    &&& #[trigger] s.client_ports[i] == p
                    &&& s.api_sockets.contains(p)
                    &&& forall|j: int|
                        0 <= j < i ==> !s.api_sockets.contains(#[trigger] s.client_ports[j])
                },
            CommandRoute::NoNodeReachable => forall|j: int|
                0 <= j < s.client_ports.len() ==> !s.api_sockets.contains(
                    #[trigger] s.client_ports[j],
                ),
            CommandRoute::NodeNotConnected => false,
        },
{
    law_command_finds_a_node(s.client_ports, s.api_sockets);
}

/// A node can be sent commands from when it connects until it is gone, and not before; what happens
/// at its port changes nothing for a command for another node, or for the messages between nodes.
pub proof fn law_clients_come_and_go(
    s: SwitchboardView,
    ports: Seq<u64>,
    list: Seq<(u64, u64)>,
    port: u64,
    other: u64,
    leader: Option<u64>,
)
    requires
        other != port,
    ensures
        command_route(with_client(s, port), Some(port), leader) == CommandRoute::Node(port),
        command_route(without_client(s, port), Some(port), leader)
            == CommandRoute::NodeNotConnected,
        command_route(with_client(s, port), Some(other), leader) == command_route(
            s,
            Some(other),
            leader,
        ),
        command_route(without_client(s, port), Some(other), leader) == command_route(
            s,
            Some(other),
            leader,
        ),
        command_route(fresh_board(ports, list), Some(port), leader)
            == CommandRoute::NodeNotConnected,
        command_route(fresh_board(ports, list), None, leader) == CommandRoute::NoNodeReachable,
        delivery(with_client(s, port), other) == delivery(s, other),
        delivery(with_client(s, port), port) == delivery(s, port),
        delivery(without_client(s, port), other) == delivery(s, other),
        delivery(without_client(s, port), port) == delivery(s, port),
        with_client(s, port).client_ports == s.client_ports,
        without_client(s, port).client_ports == s.client_ports,
        with_client(s, port).port_mappings == s.port_mappings,
        without_client(s, port).port_mappings == s.port_mappings,
        fresh_board(ports, list).client_ports == ports,
        fresh_board(ports, list).port_mappings == mapping(list),
        delivery(fresh_board(ports, list), port) == Delivery::Send <==> mapping(
            list,
        ).contains_key(port),
{
    law_command_finds_a_node(ports, Set::empty());
}

/// What happens at a port between nodes changes nothing for commands, and neither which ports there
/// are nor where they lead.
pub proof fn law_links_leave_commands_alone(
    s: SwitchboardView,
    link: u64,
    port: Option<u64>,
    leader: Option<u64>,
)
    ensures
        command_route(open_link(s, link), port, leader) == command_route(s, port, leader),
        command_route(closed_link(s, link), port, leader) == command_route(s, port, leader),
        open_link(s, link).port_mappings == s.port_mappings,
        closed_link(s, link).port_mappings == s.port_mappings,
        open_link(s, link).client_ports == s.client_ports,
        closed_link(s, link).client_ports == s.client_ports,
        delivery(open_link(s, link), link) == Delivery::Send,
{
}

/// The leader is taken to be where the last sign of life came from. No other message changes where
/// it is taken to be, and a lost connection only that it is no longer known, if it was there.
pub proof fn law_leader_follows_signs<M>(
    known: Option<u64>,
    port: u64,
    text: String,
    msg: Message<M>,
)
    ensures
        leader_port(known, port, message_sign(Message::<M>::Debug(text))) == Some(port),
        msg !is Debug ==> leader_port(known, port, message_sign(msg)) == known,
        known != Some(port) ==> leader_port(known, port, ClientSign::Disconnected) == known,
        leader_port(Some(port), port, ClientSign::Disconnected) is None,
{
}

/// A command that a user types with the port of a connected node goes to that node, as it was typed,
/// and without a port to the leader, wherever that stands in the list of ports.
pub proof fn law_typed_line_reaches_its_node(
    s: SwitchboardView,
    before: Seq<char>,
    c: CommandView,
    after: Seq<char>,
    port: u64,
    leader: Option<u64>,
)
    requires
        blank(before),
        blank(after),
        s.api_sockets.contains(port),
    ensures
        typable(c, Some(port)) ==> taken(s, before + typed(c, Some(port)) + after, leader) == Ok::<
            (CommandView, CommandRoute),
            Seq<char>,
        >((c, CommandRoute::Node(port))),
        typable(c, None) ==> taken(s, before + typed(c, None) + after, Some(port)) == Ok::<
            (CommandView, CommandRoute),
            Seq<char>,
        >((c, CommandRoute::Node(port))),
{
    if typable(c, Some(port)) {
        law_white_space_around_a_line(before, c, Some(port), after);
    }
    if typable(c, None) {
        law_white_space_around_a_line(before, c, None, after);
    }
}

/// A line that is no command goes nowhere, and the user is told why it is none.
pub proof fn law_refused_line_goes_nowhere(
    s: SwitchboardView,
    line: Seq<char>,
    leader: Option<u64>,
)
    ensures
        parsed(line) is Err <==> taken(s, line, leader) is Err,
        parsed(line) is Err ==> taken(s, line, leader)->Err_0 == parsed(line)->Err_0,
{
}

/// What is read from a port between nodes is passed on whole and unchanged to the port's other end,
/// under its own name, and the connection is given up only once it has ended.
pub proof fn law_read_line_is_passed_on(mappings: Map<u64, u64>, port: u64, data: Vec<u8>)
    ensures
        match link_step(mappings, port, LinkRead::Data(data)) {
            LinkStep::Forward(p) => {
                &&& mappings.contains_pair(port, p.to)
                &&& p.from == port
                &&& p.data == data
                &&& passed_on(mappings, seq![Line { port, data: data@ }]) == seq![p@]
            },
            LinkStep::Skip => {
                &&& !mappings.contains_key(port)
                &&& passed_on(mappings, seq![Line { port, data: data@ }]).len() == 0
            },
            LinkStep::Close => false,
        },
        link_step(mappings, port, LinkRead::Eof) is Close,
        link_step(mappings, port, LinkRead::Failed) is Close,
{
    let lines = seq![Line { port, data: data@ }];
    assert(lines.drop_last() =~= Seq::empty());
    assert(passed_on(mappings, lines.drop_last()) =~= Seq::empty());
    if mappings.contains_key(port) {
        assert(passed_on(mappings, lines) =~= seq![
            ParcelView { from: port, to: mappings[port], data: data@ },
        ]);
    }
}

/// Messages between two ports are dropped exactly where the two are partitioned.
pub proof fn law_partition_drops_its_own(partitions: Seq<(u64, u64)>, p: ParcelView)
    ensures
        partitions.contains((p.from, p.to)) ==> let_through(partitions, seq![p]).len() == 0,
        !partitions.contains((p.from, p.to)) ==> let_through(partitions, seq![p]) == seq![p],
{
    assert(seq![p].drop_last() =~= Seq::<ParcelView>::empty());
    assert(let_through(partitions, Seq::<ParcelView>::empty()) =~= Seq::empty());
    if !partitions.contains((p.from, p.to)) {
        assert(let_through(partitions, seq![p]) =~= seq![p]);
    }
}

} // verus!
