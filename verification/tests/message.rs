use p2p_file_system::address::{PeerAddr, PeerIp};
use p2p_file_system::message::{Message, MessageType};
use p2p_file_system::request_answer::RequestAnswer;

fn addr(port: u16) -> PeerAddr {
    PeerAddr { ip: PeerIp::V4(127, 0, 0, 1), port }
}

#[test]
fn flooding_message_has_random_id() {
    let m = Message::new_flooding("movie.mp4".to_string(), addr(6000), 10, 5).unwrap();
    assert_eq!(m.message_type, MessageType::Flooding);
    let id = m.id.clone().unwrap();
    assert_eq!(id.len(), 32);
    assert!(id.chars().all(|c| c.is_ascii_alphanumeric()));
    assert_eq!(m.ttl, Some(5));
    assert_eq!(m.filename, Some("movie.mp4".to_string()));
    assert_eq!(m.chunk_amount, 10);
    assert_eq!(m.sender_ip, Some(addr(6000)));
    assert_eq!(m.sender_ip_tcp, None);
    assert_eq!(m.transfer_speed, None);
    assert_eq!(m.chunks, None);
    let other = Message::new_flooding("movie.mp4".to_string(), addr(6000), 10, 5).unwrap();
    assert_ne!(other.id, m.id);
}

#[test]
fn chunks_found_message() {
    let m = Message::new_chunks_found("id".to_string(), addr(6100), 4, &vec![1, 3], 70);
    assert_eq!(m.message_type, MessageType::ChunksFound);
    assert_eq!(m.id, Some("id".to_string()));
    assert_eq!(m.filename, None);
    assert_eq!(m.ttl, None);
    assert_eq!(m.sender_ip, None);
    assert_eq!(m.sender_ip_tcp, Some(addr(6100)));
    assert_eq!(m.chunk_amount, 4);
    assert_eq!(m.transfer_speed, Some(70));
    assert_eq!(m.chunks, Some(vec![1, 3]));
}

#[test]
fn chunk_request_message() {
    let m = Message::new_chunk_request("f".to_string(), vec![2]);
    assert_eq!(m.message_type, MessageType::ChunkRequest);
    assert_eq!(m.id, None);
    assert_eq!(m.filename, Some("f".to_string()));
    assert_eq!(m.chunk_amount, 0);
    assert_eq!(m.chunks, Some(vec![2]));
}

#[test]
fn ttl_goes_down_to_zero() {
    let mut m = Message::flooding_with_id("i".to_string(), "f".to_string(), addr(1), 1, 2);
    assert_eq!(m.decrease_ttl(), 1);
    assert_eq!(m.decrease_ttl(), 0);
    assert_eq!(m.decrease_ttl(), 0);
    assert_eq!(m.ttl, Some(0));
    let mut r = Message::new_chunk_request("f".to_string(), vec![]);
    assert_eq!(r.decrease_ttl(), 0);
    assert_eq!(r.ttl, Some(0));
}

#[test]
fn request_answer_fields() {
    let a = RequestAnswer::new("f".to_string(), "1.2.3.4:5".to_string(), 2, vec![0, 3], 9);
    assert_eq!(a.filename, "f");
    assert_eq!(a.file_owner_ip, "1.2.3.4:5");
    assert_eq!(a.number_of_chunks_present, 2);
    assert_eq!(a.chunks_present, vec![0, 3]);
    assert_eq!(a.transfer_speed, 9);
}

#[test]
fn message_id_from_bytes() {
    let id = p2p_file_system::message::message_id_of(&b"aZ09".to_vec());
    assert_eq!(id, "aZ09");
    let drawn = p2p_file_system::message::draw_alphanumeric(40).unwrap();
    assert_eq!(drawn.len(), 40);
    assert!(drawn.iter().all(|b| b.is_ascii_alphanumeric()));
    let id = p2p_file_system::message::random_message_id().unwrap();
    assert_eq!(id.len(), 32);
}
