use p2p_file_system::address::{PeerAddr, PeerIp};
use p2p_file_system::message::{Message, MessageError};
use p2p_file_system::node::Node;
use p2p_file_system::protocol::{
    next_socket_ttl, on_flooding, on_tcp_message, order_peers, ChunkRequestStep, DownloadTracker,
    FloodCache, FloodStep,
};

fn addr(port: u16) -> PeerAddr {
    PeerAddr { ip: PeerIp::V4(127, 0, 0, 1), port }
}

fn node() -> Node {
    Node::new(0, addr(6000), 100, vec![(1, addr(6001))], "nodes/0".to_string()).unwrap()
}

#[test]
fn cache_drops_repeats_and_keeps_ten() {
    let mut c = FloodCache::new();
    for i in 0..10 {
        assert!(c.remember(&format!("id{}", i)));
    }
    assert!(!c.remember(&"id0".to_string()));
    assert!(c.remember(&"id10".to_string()));
    assert_eq!(c.ids.len(), 10);
    assert!(!c.contains(&"id0".to_string()));
    assert!(c.contains(&"id10".to_string()));
    assert_eq!(c.ids[0], "id1");
    // The oldest id was forgotten: it is taken in again.
    assert!(c.remember(&"id0".to_string()));
}

#[test]
fn flooding_steps() {
    let mut c = FloodCache::new();
    let mut m = Message::flooding_with_id("abc".to_string(), "f".to_string(), addr(6001), 3, 2);
    assert_eq!(on_flooding(&mut c, &mut m), Ok(FloodStep::Forward));
    assert_eq!(m.ttl, Some(1));
    assert_eq!(on_flooding(&mut c, &mut m), Ok(FloodStep::Duplicate));
    assert_eq!(m.ttl, Some(1));
    let mut m2 = Message::flooding_with_id("def".to_string(), "f".to_string(), addr(6001), 3, 1);
    assert_eq!(on_flooding(&mut c, &mut m2), Ok(FloodStep::Expired));
    let mut r = Message::new_chunk_request("f".to_string(), vec![]);
    assert_eq!(on_flooding(&mut c, &mut r), Err(MessageError::MissingField));
}

#[test]
fn answer_only_when_holding_chunks() {
    let n = node();
    let m = Message::flooding_with_id("abc".to_string(), "f".to_string(), addr(6001), 3, 2);
    assert!(n.answer_flooding(&m, &vec![]).unwrap().is_none());
    let (to, reply) = n.answer_flooding(&m, &vec![0, 2]).unwrap().unwrap();
    assert_eq!(to, addr(6001));
    assert_eq!(reply.id, Some("abc".to_string()));
    assert_eq!(reply.filename, Some("f".to_string()));
    assert_eq!(reply.sender_ip_tcp, Some(addr(6100)));
    assert_eq!(reply.transfer_speed, Some(100));
    assert_eq!(reply.chunks, Some(vec![0, 2]));
    assert_eq!(reply.chunk_amount, 3);
    let r = Message::new_chunk_request("f".to_string(), vec![]);
    assert_eq!(n.answer_flooding(&r, &vec![1]).err(), Some(MessageError::MissingField));
    let mut unnamed = Message::flooding_with_id("abc".to_string(), "f".to_string(), addr(6001), 3, 2);
    unnamed.filename = None;
    assert_eq!(n.answer_flooding(&unnamed, &vec![1]).err(), Some(MessageError::MissingField));
}

/// A `ChunksFound` answer that also names the file.
fn found_naming(id: &str, file: Option<&str>, from: u16, amount: u8, chunks: Vec<u8>, speed: u32) -> Message {
    let mut m = Message::new_chunks_found(id.to_string(), addr(from), amount, &chunks, speed);
    m.filename = file.map(|f| f.to_string());
    m
}

#[test]
fn chunks_found_until_complete() {
    let mut n = node();
    let a = found_naming("s", Some("f"), 7100, 3, vec![0, 1, 1], 50);
    assert_eq!(n.record_chunks_found(&a), Ok(false));
    assert_eq!(n.file_name, None);
    let b = found_naming("s", Some("f"), 7200, 3, vec![1, 2], 80);
    assert_eq!(n.record_chunks_found(&b), Ok(true));
    assert_eq!(n.file_name, Some("f".to_string()));
    assert_eq!(n.total_chunks, 3);
    assert_eq!(n.wanted_chunks.len(), 2);
    assert_eq!(n.chunks_counter.len(), 1);
    let mut found = n.chunks_counter[0].1.clone();
    found.sort();
    assert_eq!(found, vec![0, 1, 2]);
    // The same sender answering again replaces its entry.
    let c = found_naming("t", None, 7100, 9, vec![4], 60);
    assert_eq!(n.record_chunks_found(&c), Ok(false));
    assert_eq!(n.wanted_chunks.len(), 2);
    assert_eq!(n.chunks_counter.len(), 2);
    let bad = Message::new_chunk_request("f".to_string(), vec![1]);
    assert_eq!(n.record_chunks_found(&bad), Err(MessageError::MissingField));
}

#[test]
fn holders_answers_start_the_download() {
    // Two holders answer a search; once all chunks are found, the searcher
    // knows which file to download.
    let holder1 = Node::new(1, addr(6001), 50, vec![], "nodes/1".to_string()).unwrap();
    let holder2 = Node::new(2, addr(6002), 80, vec![], "nodes/2".to_string()).unwrap();
    let mut searcher = node();
    let search = Message::flooding_with_id("s".to_string(), "movie".to_string(), addr(6000), 3, 4);
    let (to1, a) = holder1.answer_flooding(&search, &vec![0, 1]).unwrap().unwrap();
    let (to2, b) = holder2.answer_flooding(&search, &vec![2]).unwrap().unwrap();
    assert_eq!(to1, addr(6000));
    assert_eq!(to2, addr(6000));
    assert_eq!(searcher.record_chunks_found(&a), Ok(false));
    assert_eq!(searcher.record_chunks_found(&b), Ok(true));
    assert_eq!(searcher.file_name, Some("movie".to_string()));
    assert_eq!(searcher.total_chunks, 3);
}

#[test]
fn complete_answer_without_file_name() {
    // A complete answer that names no file leaves the download unknown.
    let mut n = node();
    let a = Message::new_chunks_found("s".to_string(), addr(7100), 2, &vec![0, 1], 50);
    assert_eq!(n.record_chunks_found(&a), Err(MessageError::MissingField));
    assert_eq!(n.file_name, None);
    assert_eq!(n.total_chunks, 0);
}

#[test]
fn peers_fastest_first_stable() {
    let wanted = vec![
        (addr(1), (10, vec![0])),
        (addr(2), (30, vec![1])),
        (addr(3), (10, vec![2])),
        (addr(4), (30, vec![3])),
        (addr(5), (20, vec![4])),
    ];
    let order: Vec<u16> = order_peers(&wanted).iter().map(|e| e.0.port).collect();
    assert_eq!(order, vec![2, 4, 5, 1, 3]);
}

#[test]
fn downloads_skip_chunks_already_fetched() {
    let mut t = DownloadTracker::new();
    assert_eq!(t.chunks_to_request(&vec![0, 1, 2]), vec![0, 1, 2]);
    t.record(&vec![0, 1]);
    assert_eq!(t.chunks_to_request(&vec![1, 2, 0, 3]), vec![2, 3]);
    assert!(!t.is_complete(3));
    t.record(&vec![2, 2]);
    assert!(t.is_complete(3));
}

#[test]
fn tcp_messages() {
    let r = Message::new_chunk_request("f".to_string(), vec![1, 2]);
    match on_tcp_message(&r) {
        Ok(ChunkRequestStep::Serve { filename, chunks }) => {
            assert_eq!(filename, "f");
            assert_eq!(chunks, vec![1, 2]);
        }
        _ => panic!("expected a chunk request"),
    }
    let f = Message::flooding_with_id("a".to_string(), "f".to_string(), addr(1), 1, 1);
    assert!(matches!(on_tcp_message(&f), Ok(ChunkRequestStep::Unexpected)));
}

#[test]
fn socket_ttl() {
    assert_eq!(next_socket_ttl(64), Some(63));
    assert_eq!(next_socket_ttl(2), Some(1));
    assert_eq!(next_socket_ttl(1), None);
    assert_eq!(next_socket_ttl(0), None);
}
