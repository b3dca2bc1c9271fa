use kv_store::network::{
    frame, peers_of, LinkAction, LinkEvent, Message, Network, SendRoute, CLIENT,
};

fn network() -> Network<u8> {
    Network::new(2, vec![1, 2, 3])
}

#[test]
fn addresses() {
    let n = network();
    assert_eq!(n.get_my_api_addr(), "net.default.svc.cluster.local:8002");
    assert_eq!(n.get_peer_addr(3), "net.default.svc.cluster.local:8023");
    assert_eq!(
        n.peer_addrs(),
        vec![
            (1, "net.default.svc.cluster.local:8021".to_string()),
            (3, "net.default.svc.cluster.local:8023".to_string()),
        ]
    );
}

#[test]
fn a_node_is_not_its_own_peer() {
    assert_eq!(peers_of(&vec![1, 2, 3, 4], 2), vec![1, 3, 4]);
    assert_eq!(peers_of(&vec![], 2), Vec::<u64>::new());
    assert_eq!(peers_of(&vec![5, 5], 5), Vec::<u64>::new());
    assert_eq!(peers_of(&vec![3, 1], 7), vec![3, 1]);
}

#[test]
fn a_message_ends_with_a_line_feed() {
    let data = b"{\"Reconnect\":1}".to_vec();
    let wire = frame(data.clone());
    assert_eq!(wire, b"{\"Reconnect\":1}\n".to_vec());
    assert_eq!(wire.iter().position(|b| *b == b'\n'), Some(data.len()));
    assert_eq!(frame(vec![]), vec![b'\n']);
}

#[test]
fn messages_follow_the_links() {
    let mut n = network();
    assert_eq!(n.send(CLIENT), SendRoute::Client);
    assert_eq!(n.send(1), SendRoute::NotConnected(1));
    assert_eq!(n.link_event(1, LinkEvent::ConnectFailed), LinkAction::Reconnect);
    assert_eq!(n.send(1), SendRoute::NotConnected(1));
    assert_eq!(n.link_event(1, LinkEvent::Connected), LinkAction::Read);
    assert_eq!(n.send(1), SendRoute::Peer(1));
    assert_eq!(n.send(3), SendRoute::NotConnected(3));
    assert_eq!(n.link_event(1, LinkEvent::Closed), LinkAction::Reconnect);
    assert_eq!(n.send(1), SendRoute::NotConnected(1));
    n.link_event(1, LinkEvent::Connected);
    assert_eq!(n.link_event(1, LinkEvent::ReadFailed), LinkAction::Reconnect);
    assert_eq!(n.send(1), SendRoute::NotConnected(1));
}

#[test]
fn messages_are_handed_out_once_and_in_order() {
    let mut n = network();
    assert!(n.get_received().is_empty());
    assert_eq!(n.link_event(3, LinkEvent::Received(Message::OmniPaxosMsg(9))), LinkAction::Read);
    n.receive(Message::Reconnect(1));
    assert_eq!(n.get_received(), vec![Message::OmniPaxosMsg(9), Message::Reconnect(1)]);
    assert!(n.get_received().is_empty());
}
