use kv_store::actor::{
    enqueue, follow_leader, is_partitioned, sign_of, ClientSign, CommandRoute, Delivery, LinkRead, LinkStep, Parcel,
    Switchboard,
};
use kv_store::kv::KVCommand;
use kv_store::network::Message;
use kv_store::server::APIResponse;

fn parcel(from: u64, to: u64, data: &[u8]) -> Parcel {
    Parcel { from, to, data: data.to_vec() }
}

fn switchboard() -> Switchboard {
    Switchboard::new(vec![8001, 8002, 8003], vec![(8012, 8021), (8021, 8012)])
}

#[test]
fn a_command_goes_to_the_leader() {
    let mut s = switchboard();
    s.client_connected(8001);
    s.client_connected(8003);
    assert_eq!(s.route_command(None, Some(8003)), CommandRoute::Node(8003));
    assert_eq!(s.route_command(None, Some(8001)), CommandRoute::Node(8001));
    assert_eq!(s.route_command(None, Some(8002)), CommandRoute::Node(8001));
    assert_eq!(s.route_command(Some(8001), Some(8003)), CommandRoute::Node(8001));
    s.client_disconnected(8003);
    assert_eq!(s.route_command(None, Some(8003)), CommandRoute::Node(8001));
}

#[test]
fn the_leader_is_known_by_its_sign_of_life() {
    let beat: Message<u8> = Message::Debug("Heartbeat from node 2".to_string());
    let answer: Message<u8> = Message::APIResponse(APIResponse::Decided(4));
    assert_eq!(sign_of(&beat), ClientSign::Heartbeat);
    assert_eq!(sign_of(&answer), ClientSign::Message);
    let leader = follow_leader(None, 8002, ClientSign::Heartbeat);
    assert_eq!(leader, Some(8002));
    assert_eq!(follow_leader(leader, 8001, ClientSign::Message), Some(8002));
    assert_eq!(follow_leader(leader, 8001, ClientSign::Disconnected), Some(8002));
    assert_eq!(follow_leader(leader, 8001, ClientSign::Heartbeat), Some(8001));
    assert_eq!(follow_leader(leader, 8002, ClientSign::Disconnected), None);
}

#[test]
fn a_waiting_message_holds_up_those_behind_it() {
    let mut s = switchboard();
    s.link_closed(8021);
    let first = parcel(8021, 8012, &[1]);
    let stuck = parcel(8012, 8021, &[2]);
    let behind = parcel(8021, 8012, &[3]);
    let mut queue = vec![first.clone(), stuck.clone(), behind.clone()];
    assert_eq!(s.deliver_queue(&mut queue), vec![first]);
    assert_eq!(queue, vec![stuck.clone(), behind.clone()]);
    assert_eq!(s.deliver_queue(&mut queue), vec![]);
    s.link_opened(8021);
    assert_eq!(s.deliver_queue(&mut queue), vec![stuck, behind]);
    assert_eq!(queue, vec![]);
}

#[test]
fn messages_between_partitioned_ports_are_dropped() {
    let partitions = vec![(8012, 8021), (8013, 8031)];
    assert!(is_partitioned(&partitions, 8012, 8021));
    assert!(!is_partitioned(&partitions, 8021, 8012));
    assert!(!is_partitioned(&partitions, 8012, 8031));
    assert!(!is_partitioned(&vec![], 8012, 8021));
    let arrived =
        vec![parcel(8012, 8021, &[1]), parcel(8021, 8012, &[2]), parcel(8013, 8031, &[3])];
    let mut queue = vec![parcel(8012, 8021, &[0])];
    enqueue(&partitions, arrived.clone(), &mut queue);
    assert_eq!(queue, vec![parcel(8012, 8021, &[0]), parcel(8021, 8012, &[2])]);
    let mut queue = Vec::new();
    enqueue(&vec![], arrived.clone(), &mut queue);
    assert_eq!(queue, arrived);
}

#[test]
fn lines_of_a_port_come_out_once_and_in_order() {
    let mut s = switchboard();
    let mut queue = Vec::new();
    let mut out = Vec::new();
    for round in 0..9u8 {
        for port in [8012, 8021] {
            match s.link_read(port, LinkRead::Data(vec![round, 10])) {
                LinkStep::Forward(p) => queue.push(p),
                other => panic!("unexpected {:?}", other),
            }
        }
        if round % 3 == 0 {
            s.link_closed(8021);
        } else {
            s.link_opened(8021);
        }
        out.extend(s.deliver_queue(&mut queue));
    }
    assert_eq!(queue, vec![]);
    for (port, other_end) in [(8012, 8021), (8021, 8012)] {
        let lines: Vec<Parcel> = out.iter().filter(|p| p.from == port).cloned().collect();
        let expected: Vec<Parcel> = (0..9).map(|r| parcel(port, other_end, &[r, 10])).collect();
        assert_eq!(lines, expected);
    }
}

#[test]
fn a_command_goes_to_the_first_connected_node() {
    let mut s = switchboard();
    assert_eq!(s.route_command(None, None), CommandRoute::NoNodeReachable);
    s.client_connected(8003);
    assert_eq!(s.route_command(None, None), CommandRoute::Node(8003));
    s.client_connected(8002);
    assert_eq!(s.route_command(None, None), CommandRoute::Node(8002));
    s.client_disconnected(8002);
    assert_eq!(s.route_command(None, None), CommandRoute::Node(8003));
}

#[test]
fn a_command_for_a_node_goes_to_it_or_nowhere() {
    let mut s = switchboard();
    s.client_connected(8001);
    assert_eq!(s.route_command(Some(8001), None), CommandRoute::Node(8001));
    assert_eq!(s.route_command(Some(8002), None), CommandRoute::NodeNotConnected);
    assert_eq!(s.route_command(Some(1), None), CommandRoute::NodeNotConnected);
}

#[test]
fn a_typed_line_is_routed() {
    let mut s = switchboard();
    s.client_connected(8001);
    s.client_connected(8002);
    let get = KVCommand::Get("a".to_string());
    let take = |line: &str, leader: Option<u64>| s.take_line(line.to_string(), leader);
    assert_eq!(take("get a\n", None).unwrap(), (get.clone(), CommandRoute::Node(8001)));
    assert_eq!(take("get a\n", Some(8002)).unwrap(), (get.clone(), CommandRoute::Node(8002)));
    assert_eq!(take("get a 8001", Some(8002)).unwrap(), (get.clone(), CommandRoute::Node(8001)));
    assert_eq!(take("get a 8003", Some(8002)).unwrap(), (get, CommandRoute::NodeNotConnected));
    assert_eq!(take("get", None).unwrap_err().to_string(), "Not enough arguments");
}

#[test]
fn what_comes_in_on_one_end_goes_out_on_the_other() {
    let s = switchboard();
    assert_eq!(
        s.link_read(8012, LinkRead::Data(vec![1, 10])),
        LinkStep::Forward(parcel(8012, 8021, &[1, 10]))
    );
    assert_eq!(s.link_read(8013, LinkRead::Data(vec![1])), LinkStep::Skip);
    assert_eq!(s.link_read(8012, LinkRead::Eof), LinkStep::Close);
    assert_eq!(s.link_read(8012, LinkRead::Failed), LinkStep::Close);
}

#[test]
fn a_message_waits_for_a_node_that_is_gone() {
    let mut s = switchboard();
    assert_eq!(s.deliver(8021), Delivery::Send);
    assert_eq!(s.deliver(8099), Delivery::Wait);
    s.link_closed(8021);
    assert_eq!(s.deliver(8021), Delivery::Wait);
    assert_eq!(s.deliver(8012), Delivery::Send);
    s.link_opened(8021);
    assert_eq!(s.deliver(8021), Delivery::Send);
}

#[test]
fn the_later_mapping_of_a_port_counts() {
    let s = Switchboard::new(vec![], vec![(1, 2), (1, 3)]);
    assert_eq!(
        s.link_read(1, LinkRead::Data(vec![])),
        LinkStep::Forward(parcel(1, 3, &[]))
    );
}
