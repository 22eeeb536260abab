use p2p_file_system::address::{PeerAddr, PeerIp};
use p2p_file_system::descritor::{ConfigError, Descritor};
use p2p_file_system::node::{Node, NodeError};
use std::collections::HashMap;

/// Reads an IPv4 socket address `a.b.c.d:port`.
fn peer(text: &str) -> PeerAddr {
    let (ip, port) = text.split_once(':').unwrap();
    let o: Vec<u8> = ip.split('.').map(|p| p.parse().unwrap()).collect();
    assert_eq!(o.len(), 4);
    PeerAddr { ip: PeerIp::V4(o[0], o[1], o[2], o[3]), port: port.parse().unwrap() }
}

fn lines(text: &[&str]) -> Vec<Option<String>> {
    text.iter().map(|l| Some(l.to_string())).collect()
}

const TOPOLOGY: &[&str] = &["0: 1, 3, 4", "1: 0, 2", "2: 1, 3", "3: 0, 2, 4", "4: 0, 3"];
const CONFIG: &[&str] = &[
    "0: 127.0.0.1, 6000, 100",
    "1: 127.0.0.1, 6001, 100",
    "2: 127.0.0.1, 6002, 100",
    "3: 127.0.0.1, 6003, 100",
    "4: 127.0.0.1, 6004, 100",
];

/// Reads the node's configuration as the program does.
fn parse_file(
    descritor: &Descritor,
    topology: &[&str],
    config: &[&str],
) -> Result<(PeerAddr, u32, Vec<(u128, PeerAddr)>), ConfigError> {
    let neighbors = descritor.parse_topology(&lines(topology))?;
    let mut parser = descritor.config_parser(neighbors);
    for line in config {
        let scanned = parser.scan_line(line)?;
        let addr = peer(&scanned.socket_text);
        parser.apply_line(&scanned, addr)?;
    }
    parser.finish()
}

fn node_from(node_id: u128, topology: &[&str], config: &[&str]) -> Node {
    let descritor = Descritor::new(node_id);
    let (ip, speed, neighbors) = parse_file(&descritor, topology, config).unwrap();
    Node::new(node_id, ip, speed, neighbors, format!("nodes/{}", node_id)).unwrap()
}

#[test]
fn test_node_with_id_0() {
    let node = node_from(0, TOPOLOGY, CONFIG);

    let expected_ip_address = "127.0.0.1:6000";
    let expected_transfer_speed: u32 = 100;

    let mut expected_neighbors: HashMap<u128, &str> = HashMap::new();
    expected_neighbors.insert(3, "127.0.0.1:6003");
    expected_neighbors.insert(1, "127.0.0.1:6001");
    expected_neighbors.insert(4, "127.0.0.1:6004");

    assert_eq!(
        node.ip_address,
        peer(expected_ip_address),
        "IP address should be 127.0.0.1:6000"
    );

    assert_eq!(node.transfer_speed, expected_transfer_speed, "Transfer speed should be 100");

    for (node_id, addr) in expected_neighbors.iter() {
        assert_eq!(
            node.neighbor(*node_id),
            Some(peer(addr)),
            "Neighbor {} should map to {}",
            node_id,
            addr
        );
    }
    assert_eq!(node.neighbor(2), None);
}

#[test]
fn tcp_address_is_port_plus_100() {
    let node = node_from(2, TOPOLOGY, CONFIG);
    assert_eq!(node.ip_address_tcp, peer("127.0.0.1:6102"));
    assert_eq!(node.neighbors_hashmap.len(), 2);
}

#[test]
fn tcp_port_overflow() {
    let ip = PeerAddr { ip: PeerIp::V4(127, 0, 0, 1), port: 65500 };
    assert_eq!(
        Node::new(1, ip, 10, Vec::new(), "nodes/1".to_string()).err(),
        Some(NodeError::TcpPortOverflow)
    );
}

#[test]
fn ipv6_tcp_address_loses_scope() {
    let ip = PeerAddr { ip: PeerIp::V6(1, 7, 9), port: 80 };
    let node = Node::new(1, ip, 10, Vec::new(), "nodes/1".to_string()).unwrap();
    assert_eq!(node.ip_address_tcp, PeerAddr { ip: PeerIp::V6(1, 0, 0), port: 180 });
}

#[test]
fn descritor_paths() {
    let d = Descritor::new(42);
    assert_eq!(d.config_path, "config/config.txt");
    assert_eq!(d.topology_path, "config/topologia.txt");
    assert_eq!(d.node_folder, "nodes/42");
}

#[test]
fn own_speed_is_read() {
    let config = ["0: 127.0.0.1, 6000, 250", "1: 127.0.0.1, 6001, 9"];
    let d = Descritor::new(0);
    let (_, speed, nbrs) = parse_file(&d, &["0: 1"], &config).unwrap();
    assert_eq!(speed, 250);
    assert_eq!(nbrs.len(), 1);
}

#[test]
fn later_lines_override_earlier_ones() {
    let config = [
        "0: 127.0.0.1, 6000, 1",
        "1: 127.0.0.1, 6001",
        "1: 127.0.0.1, 7001",
    ];
    let d = Descritor::new(0);
    let (_, _, nbrs) = parse_file(&d, &["0: 1,"], &config).unwrap();
    assert_eq!(nbrs, vec![(1, peer("127.0.0.1:7001"))]);
}

#[test]
fn missing_own_entry() {
    let d = Descritor::new(9);
    assert_eq!(parse_file(&d, TOPOLOGY, CONFIG).err(), Some(ConfigError::NoOwnEntry));
}

#[test]
fn missing_speed() {
    let d = Descritor::new(0);
    assert_eq!(
        parse_file(&d, &["0: 1"], &["0: 127.0.0.1, 6000"]).err(),
        Some(ConfigError::MissingSpeed)
    );
}

#[test]
fn bad_speed() {
    let d = Descritor::new(0);
    assert_eq!(
        parse_file(&d, &["0: 1"], &["0: 127.0.0.1, 6000, fast"]).err(),
        Some(ConfigError::BadSpeed)
    );
}

#[test]
fn config_line_errors() {
    let d = Descritor::new(0);
    let p = d.config_parser(vec![1]);
    assert_eq!(p.scan_line("   ").err(), Some(ConfigError::EmptyLine));
    assert_eq!(p.scan_line("x: 1.2.3.4, 5").err(), Some(ConfigError::BadNodeId));
    assert_eq!(p.scan_line("1:").err(), Some(ConfigError::MissingAddress));
    assert_eq!(p.scan_line("1: 1.2.3.4,").err(), Some(ConfigError::MissingPort));
    let ok = p.scan_line("  1:  10.0.0.2,,   80,  5 ").unwrap();
    assert_eq!(ok.node_id, 1);
    assert_eq!(ok.socket_text, "10.0.0.2:80");
    assert_eq!(ok.speed_word, Some("5".to_string()));
}

#[test]
fn topology_neighbors_and_errors() {
    let d = Descritor::new(3);
    let mut n = d.parse_topology(&lines(TOPOLOGY)).unwrap();
    n.sort();
    assert_eq!(n, vec![0, 2, 4]);
    let d = Descritor::new(7);
    assert_eq!(d.parse_topology(&lines(TOPOLOGY)).unwrap(), Vec::<u128>::new());
    let d = Descritor::new(1);
    assert_eq!(
        d.parse_topology(&lines(&["0: 1", "", "1: 2"])).err(),
        Some(ConfigError::EmptyLine)
    );
    assert_eq!(d.parse_topology(&lines(&["1: 2, x"])).err(), Some(ConfigError::BadNeighborId));
    assert_eq!(d.parse_topology(&lines(&["one: 2"])).err(), Some(ConfigError::BadNodeId));
    // Lines after the node's own line are not read.
    assert_eq!(d.parse_topology(&lines(&["1: 2, 2, +3", "garbage"])).unwrap(), vec![2, 3]);
    // Unreadable lines are passed over.
    assert_eq!(d.parse_topology(&vec![None, Some("1: 5".to_string())]).unwrap(), vec![5]);
}

#[test]
fn own_id_never_in_neighbor_table() {
    // The topology lists the node as its own neighbor, and node 5 has no line.
    let config = ["0: 127.0.0.1, 6000, 1", "1: 127.0.0.1, 6001", "2: 127.0.0.1, 6002"];
    let d = Descritor::new(0);
    let (_, _, nbrs) = parse_file(&d, &["0: 0, 1, 5"], &config).unwrap();
    assert_eq!(nbrs, vec![(1, peer("127.0.0.1:6001"))]);
}
