//! The messages that nodes exchange.

use rand::{Rng, SeedableRng};
use vstd::prelude::*;

use crate::address::PeerAddr;
use crate::text::push_char;

verus! {

/// The kinds of messages exchanged between nodes.
#[derive(Debug, Clone, Copy, PartialEq, Eq, Structural)]
pub enum MessageType {
    /// A search for a file, flooded from neighbor to neighbor.
    Flooding,
    /// The answer of a node that holds chunks of the searched file.
    ChunksFound,
    /// A request for chunks, sent over TCP.
    ChunkRequest,
}

/// A message exchanged between nodes.
pub struct Message {
    pub message_type: MessageType,
    pub id: Option<String>,
    pub ttl: Option<u32>,
    pub filename: Option<String>,
    pub chunk_amount: u8,
    pub sender_ip: Option<PeerAddr>,
    pub sender_ip_tcp: Option<PeerAddr>,
    pub transfer_speed: Option<u32>,
    pub chunks: Option<Vec<u8>>,
}

/// Why a message could not be handled: a field that its kind needs is missing.
#[derive(Debug, Clone, Copy, PartialEq, Eq, Structural)]
pub enum MessageError {
    MissingField,
}

/// The length of the id of a flooding message.
pub const MESSAGE_ID_LEN: usize = 32;

/// An ASCII letter or digit, as `rand::distributions::Alphanumeric` draws them.
pub open spec fn is_alphanumeric_byte(b: u8) -> bool {
    (48 <= b <= 57) || (65 <= b <= 90) || (97 <= b <= 122)
}

pub open spec fn is_alphanumeric_char(c: char) -> bool {
    let u = c as u32;
    (48 <= u <= 57) || (65 <= u <= 90) || (97 <= u <= 122)
}

/// A valid id of a flooding message: 32 ASCII letters and digits.
pub open spec fn is_message_id(id: Seq<char>) -> bool {
    id.len() == MESSAGE_ID_LEN && forall|i: int| 0 <= i < id.len() ==> is_alphanumeric_char(#[trigger] id[i])
}

/// Declares `rand::rngs::StdRng`, the generator the ids are drawn from.
#[verifier::external_type_specification]
#[verifier::external_body]
pub struct ExStdRng(rand::rngs::StdRng);

/// Seeds a `rand::rngs::StdRng` from the operating system with
/// `SeedableRng::from_rng(OsRng)`. Whether the operating system gives
/// random bytes depends on the machine, so nothing is promised of the
/// result; the crate's source returns an error, and never panics, where it
/// gives none.
#[verifier::external_body]
fn seeded_rng() -> (r: Option<rand::rngs::StdRng>) {
    rand::rngs::StdRng::from_rng(rand::rngs::OsRng).ok()
}

/// Draws one byte with `rand::Rng::sample` from
/// `rand::distributions::Alphanumeric`. What is drawn depends on chance; the
/// crate's source shows that it is one of the 62 ASCII letters and digits.
#[verifier::external_body]
fn sample_alphanumeric(rng: &mut rand::rngs::StdRng) -> (b: u8)
    ensures
        is_alphanumeric_byte(b),
{
    rng.sample(rand::distributions::Alphanumeric)
}

/// The characters that the bytes stand for, one for one.
pub open spec fn bytes_as_chars(bytes: Seq<u8>) -> Seq<char> {
    Seq::new(bytes.len(), |i: int| bytes[i] as char)
}

/// `n` bytes drawn from `Alphanumeric`, or none where the operating system
/// gives no random bytes to seed the generator.
pub fn draw_alphanumeric(n: usize) -> (r: Option<Vec<u8>>)
    ensures
        r matches Some(v) ==> v@.len() == n && forall|k: int|
            0 <= k < n ==> is_alphanumeric_byte(#[trigger] v@[k]),
{
    let mut rng = match seeded_rng() {
        Some(rng) => rng,
        None => {
            return None;
        },
    };
    let mut v: Vec<u8> = Vec::new();
    let mut i: usize = 0;
    while i < n
        invariant
            i <= n,
            v@.len() == i,
            forall|k: int| 0 <= k < i ==> is_alphanumeric_byte(#[trigger] v@[k]),
        decreases n - i,
    {
        let b = sample_alphanumeric(&mut rng);
        v.push(b);
        i = i + 1;
    }
    Some(v)
}

/// The message id written with the given bytes, each as the character it
/// stands for.
pub fn message_id_of(bytes: &Vec<u8>) -> (id: String)
    ensures
        id@ == bytes_as_chars(bytes@),
{
    let mut id = String::new();
    let mut i: usize = 0;
    while i < bytes.len()
        invariant
            i <= bytes@.len(),
            id@ == bytes_as_chars(bytes@.take(i as int)),
        decreases bytes@.len() - i,
    {
        let c = bytes[i] as char;
        push_char(&mut id, c);
        assert(bytes_as_chars(bytes@.take(i + 1)) =~= bytes_as_chars(bytes@.take(i as int)).push(
            c,
        ));
        i = i + 1;
    }
    assert(bytes@.take(bytes@.len() as int) =~= bytes@);
    id
}

/// A fresh random message id, or none where the operating system gives no
/// random bytes.
pub fn random_message_id() -> (id: Option<String>)
    ensures
        id matches Some(s) ==> is_message_id(s@),
{
    match draw_alphanumeric(MESSAGE_ID_LEN) {
        None => None,
        Some(bytes) => {
            let id = message_id_of(&bytes);
            assert forall|k: int| 0 <= k < id@.len() implies is_alphanumeric_char(
                #[trigger] id@[k],
            ) by {
                assert(is_alphanumeric_byte(bytes@[k]));
            }
            Some(id)
        },
    }
}

impl Message {
    /// A flooding message with the given id: it searches for `filename`,
    /// which has `chunk_amount` chunks, for `ttl` hops, on behalf of `sender_ip`.
    pub fn flooding_with_id(
        id: String,
        filename: String,
        sender_ip: PeerAddr,
        chunk_amount: u8,
        ttl: u32,
    ) -> (m: Message)
        ensures
            m.message_type == MessageType::Flooding,
            m.id matches Some(i) && i@ == id@,
            m.ttl == Some(ttl),
            m.filename matches Some(f) && f@ == filename@,
            m.chunk_amount == chunk_amount,
            m.sender_ip == Some(sender_ip),
            m.sender_ip_tcp is None,
            m.transfer_speed is None,
            m.chunks is None,
    {
        Message {
            message_type: MessageType::Flooding,
            id: Some(id),
            ttl: Some(ttl),
            filename: Some(filename),
            chunk_amount,
            sender_ip: Some(sender_ip),
            sender_ip_tcp: None,
            transfer_speed: None,
            chunks: None,
        }
    }

    /// A new flooding message, with a fresh random id; none where the
    /// operating system gives no random bytes.
    pub fn new_flooding(filename: String, sender_ip: PeerAddr, chunk_amount: u8, ttl: u32) -> (r:
        Option<Message>)
        ensures
            r matches Some(m) ==> {
                &&& m.message_type == MessageType::Flooding
                &&& m.id matches Some(i) && is_message_id(i@)
                &&& m.ttl == Some(ttl)
                &&& m.filename matches Some(f) && f@ == filename@
                &&& m.chunk_amount == chunk_amount
                &&& m.sender_ip == Some(sender_ip)
                &&& m.sender_ip_tcp is None
                &&& m.transfer_speed is None
                &&& m.chunks is None
            },
    {
        match random_message_id() {
            None => None,
            Some(id) => Some(Self::flooding_with_id(id, filename, sender_ip, chunk_amount, ttl)),
        }
    }

    /// The answer to the flooding message `id`: the sender, reachable over
    /// TCP at `sender_ip_tcp` with the given transfer speed, holds `chunks` of
    /// the file's `chunk_amount` chunks. The answer names no file.
    pub fn new_chunks_found(
        id: String,
        sender_ip_tcp: PeerAddr,
        chunk_amount: u8,
        chunks: &Vec<u8>,
        transfer_speed: u32,
    ) -> (m: Message)
        ensures
            m.message_type == MessageType::ChunksFound,
            m.id matches Some(i) && i@ == id@,
            m.ttl is None,
            m.filename is None,
            m.chunk_amount == chunk_amount,
            m.sender_ip is None,
            m.sender_ip_tcp == Some(sender_ip_tcp),
            m.transfer_speed == Some(transfer_speed),
            m.chunks matches Some(c) && c@ == chunks@,
    {
        Message {
            message_type: MessageType::ChunksFound,
            id: Some(id),
            ttl: None,
            filename: None,
            chunk_amount,
            sender_ip: None,
            sender_ip_tcp: Some(sender_ip_tcp),
            transfer_speed: Some(transfer_speed),
            chunks: Some(chunks.clone()),
        }
    }

    /// A request for the chunks `chunks` of `filename`.
    pub fn new_chunk_request(filename: String, chunks: Vec<u8>) -> (m: Message)
        ensures
            m.message_type == MessageType::ChunkRequest,
            m.id is None,
            m.ttl is None,
            m.filename matches Some(f) && f@ == filename@,
            m.chunk_amount == 0,
            m.sender_ip is None,
            m.sender_ip_tcp is None,
            m.transfer_speed is None,
            m.chunks matches Some(c) && c@ == chunks@,
    {
        Message {
            message_type: MessageType::ChunkRequest,
            id: None,
            ttl: None,
            filename: Some(filename),
            chunk_amount: 0,
            sender_ip: None,
            sender_ip_tcp: None,
            transfer_speed: None,
            chunks: Some(chunks),
        }
    }

    /// The time to live after one more hop: one less than before, never below
    /// zero; a message without one counts as having one hop left.
    pub open spec fn decreased_ttl(ttl: Option<u32>) -> u32 {
        match ttl {
            Some(t) => if t > 0 {
                (t - 1) as u32
            } else {
                0
            },
            None => 0,
        }
    }

    /// Takes one hop off the time to live and returns what is left.
    pub fn decrease_ttl(&mut self) -> (r: u32)
        ensures
            r == Self::decreased_ttl(old(self).ttl),
            final(self).ttl == Some(r),
            final(self).message_type == old(self).message_type,
            final(self).id == old(self).id,
            final(self).filename == old(self).filename,
            final(self).chunk_amount == old(self).chunk_amount,
            final(self).sender_ip == old(self).sender_ip,
            final(self).sender_ip_tcp == old(self).sender_ip_tcp,
            final(self).transfer_speed == old(self).transfer_speed,
            final(self).chunks == old(self).chunks,
    {
        let t = match self.ttl {
            Some(t) => t,
            None => 1,
        };
        let new_ttl = t.saturating_sub(1);
        self.ttl = Some(new_ttl);
        new_ttl
    }
}

} // verus!
