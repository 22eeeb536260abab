//! The decisions a node takes on the messages it receives, and when it
//! downloads the chunks of a file.

use vstd::prelude::*;

use crate::address::PeerAddr;
use crate::message::{Message, MessageError, MessageType};
use crate::node::{add_chunks, wanted_entries, Node};

verus! {

/// How many message ids a node remembers to drop repeated floods.
pub const FLOOD_CACHE_CAPACITY: usize = 10;

/// The ids of the flooding messages handled last, oldest first.
pub struct FloodCache {
    pub ids: Vec<String>,
}

/// The ids, by their views.
pub open spec fn id_views(ids: Seq<String>) -> Seq<Seq<char>> {
    ids.map_values(|s: String| s@)
}

/// Whether an id is taken in, and what the cache holds afterwards: a known id
/// is refused and changes nothing; a new one is appended, after the oldest id
/// is dropped from a full cache.
pub open spec fn remember_spec(cache: Seq<Seq<char>>, id: Seq<char>) -> (bool, Seq<Seq<char>>) {
    if cache.contains(id) {
        (false, cache)
    } else if cache.len() >= FLOOD_CACHE_CAPACITY {
        (true, cache.drop_first().push(id))
    } else {
        (true, cache.push(id))
    }
}

/// What the cache may hold: at most ten ids, none twice.
pub open spec fn cache_ok(cache: Seq<Seq<char>>) -> bool {
    cache.len() <= FLOOD_CACHE_CAPACITY && cache.no_duplicates()
}

/// The cache stays within ten distinct ids.
pub proof fn lemma_remember_keeps_cache_ok(cache: Seq<Seq<char>>, id: Seq<char>)
    requires
        cache_ok(cache),
    ensures
        cache_ok(remember_spec(cache, id).1),
{
    if !cache.contains(id) {
        let c = if cache.len() >= FLOOD_CACHE_CAPACITY {
            cache.drop_first()
        } else {
            cache
        };
        assert forall|i: int, j: int|
            0 <= i < c.push(id).len() && 0 <= j < c.push(id).len() && i != j implies c.push(
            id,
        )[i] != c.push(id)[j] by {
            if i == c.len() {
                assert(c[j] == cache[if cache.len() >= FLOOD_CACHE_CAPACITY {
                    j + 1
                } else {
                    j
                }]);
            } else if j == c.len() {
                assert(c[i] == cache[if cache.len() >= FLOOD_CACHE_CAPACITY {
                    i + 1
                } else {
                    i
                }]);
            } else if cache.len() >= FLOOD_CACHE_CAPACITY {
                assert(c[i] == cache[i + 1] && c[j] == cache[j + 1]);
            }
        }
    }
}

/// A flood is handled once: right after an id is taken in, the same id is refused.
pub proof fn lemma_remember_then_refuse(cache: Seq<Seq<char>>, id: Seq<char>)
    ensures
        remember_spec(remember_spec(cache, id).1, id).0 == false,
        remember_spec(remember_spec(cache, id).1, id).1 == remember_spec(cache, id).1,
{
    let after = remember_spec(cache, id).1;
    if !cache.contains(id) {
        assert(after[after.len() - 1] == id);
    }
}

impl View for FloodCache {
    type V = Seq<Seq<char>>;

    /// The ids remembered, oldest first.
    open spec fn view(&self) -> Seq<Seq<char>> {
        id_views(self.ids@)
    }
}

impl FloodCache {
    /// An empty cache.
    pub fn new() -> (c: FloodCache)
        ensures
            c.view().len() == 0,
    {
        FloodCache { ids: Vec::new() }
    }

    /// Whether `id` is remembered.
    pub fn contains(&self, id: &String) -> (b: bool)
        ensures
            b == self.view().contains(id@),
    {
        let mut i: usize = 0;
        while i < self.ids.len()
            invariant
                i <= self.ids@.len(),
                forall|j: int| 0 <= j < i ==> self.view()[j] != id@,
            decreases self.ids@.len() - i,
        {
            if self.ids[i] == *id {
                assert(self.view()[i as int] == id@);
                return true;
            }
            i = i + 1;
        }
        false
    }

    /// Takes in the id of a flooding message: returns whether it is new.
    pub fn remember(&mut self, id: &String) -> (b: bool)
        ensures
            (b, final(self).view()) == remember_spec(old(self).view(), id@),
    {
        if self.contains(id) {
            return false;
        }
        let ghost before = self.view();
        if self.ids.len() >= FLOOD_CACHE_CAPACITY {
            self.ids.remove(0);
            assert(self.view() =~= before.drop_first());
        }
        let ghost mid = self.view();
        self.ids.push(id.clone());
        assert(self.view() =~= mid.push(id@));
        true
    }
}

/// What a node does with a flooding message.
#[derive(Debug, Clone, Copy, PartialEq, Eq, Structural)]
pub enum FloodStep {
    /// The message was handled already: it is dropped.
    Duplicate,
    /// The message has no hop left: it goes no further.
    Expired,
    /// The node answers if it holds chunks, and passes the message on.
    Forward,
}

/// Takes in a flooding message: a new one loses one hop of its time to live.
pub fn on_flooding(cache: &mut FloodCache, msg: &mut Message) -> (r: Result<FloodStep, MessageError>)
    ensures
        match old(msg).id {
            None => {
                &&& r == Err::<FloodStep, MessageError>(MessageError::MissingField)
                &&& final(cache).view() == old(cache).view()
                &&& *final(msg) == *old(msg)
            },
            Some(id) => {
                let (fresh, after) = remember_spec(old(cache).view(), id@);
                &&& final(cache).view() == after
                &&& !fresh ==> r == Ok::<FloodStep, MessageError>(FloodStep::Duplicate)
                    && *final(msg) == *old(msg)
                &&& fresh ==> {
                    let ttl = Message::decreased_ttl(old(msg).ttl);
                    &&& final(msg).ttl == Some(ttl)
                    &&& final(msg).message_type == old(msg).message_type
                    &&& final(msg).id == old(msg).id
                    &&& final(msg).filename == old(msg).filename
                    &&& final(msg).chunk_amount == old(msg).chunk_amount
                    &&& final(msg).sender_ip == old(msg).sender_ip
                    &&& final(msg).sender_ip_tcp == old(msg).sender_ip_tcp
                    &&& final(msg).transfer_speed == old(msg).transfer_speed
                    &&& final(msg).chunks == old(msg).chunks
                    &&& r == Ok::<FloodStep, MessageError>(
                        if ttl > 0 {
                            FloodStep::Forward
                        } else {
                            FloodStep::Expired
                        },
                    )
                }
            },
        },
{
    let fresh = match &msg.id {
        None => {
            return Err(MessageError::MissingField);
        },
        Some(id) => cache.remember(id),
    };
    if !fresh {
        return Ok(FloodStep::Duplicate);
    }
    let ttl = msg.decrease_ttl();
    if ttl > 0 {
        Ok(FloodStep::Forward)
    } else {
        Ok(FloodStep::Expired)
    }
}

impl Node {
    /// The answer of this node to a flooding message when it holds the chunks
    /// `local_chunks` of the searched file, and where to send it: none when it
    /// holds no chunk; else a `ChunksFound` message to the searching node
    /// that names the searched file, so that the searcher knows which file
    /// to download once all its chunks are found.
    pub fn answer_flooding(&self, msg: &Message, local_chunks: &Vec<u8>) -> (r: Result<
        Option<(PeerAddr, Message)>,
        MessageError,
    >)
        ensures
            local_chunks@.len() == 0 ==> r matches Ok(None),
            local_chunks@.len() > 0 ==> match (msg.id, msg.filename, msg.sender_ip) {
                (Some(id), Some(f), Some(to)) => r matches Ok(Some((dest, m))) && dest == to && (
                m.message_type == MessageType::ChunksFound && (m.id matches Some(i) && i@ == id@)
                    && m.ttl is None && (m.filename matches Some(g) && g@ == f@) && m.chunk_amount
                    == msg.chunk_amount && m.sender_ip is None && m.sender_ip_tcp == Some(
                    self.ip_address_tcp,
                ) && m.transfer_speed == Some(self.transfer_speed) && (m.chunks matches Some(c)
                    && c@ == local_chunks@)),
                _ => r == Err::<Option<(PeerAddr, Message)>, MessageError>(
                    MessageError::MissingField,
                ),
            },
    {
        if local_chunks.len() == 0 {
            return Ok(None);
        }
        match (&msg.id, &msg.filename, msg.sender_ip) {
            (Some(id), Some(f), Some(to)) => {
                let mut m = Message::new_chunks_found(
                    id.clone(),
                    self.ip_address_tcp,
                    msg.chunk_amount,
                    local_chunks,
                    self.transfer_speed,
                );
                m.filename = Some(f.clone());
                Ok(Some((to, m)))
            },
            _ => Err(MessageError::MissingField),
        }
    }
}

/// What a node does with a message received over TCP.
pub enum ChunkRequestStep {
    /// Send the requested chunks of the file.
    Serve { filename: String, chunks: Vec<u8> },
    /// Only chunk requests are expected over TCP.
    Unexpected,
}

/// Takes in a message received over TCP.
pub fn on_tcp_message(msg: &Message) -> (r: Result<ChunkRequestStep, MessageError>)
    ensures
        msg.message_type != MessageType::ChunkRequest ==> r matches Ok(ChunkRequestStep::Unexpected),
        msg.message_type == MessageType::ChunkRequest ==> match (msg.filename, msg.chunks) {
            (Some(f), Some(c)) => r matches Ok(ChunkRequestStep::Serve { filename, chunks })
                && filename@ == f@ && chunks@ == c@,
            _ => r == Err::<ChunkRequestStep, MessageError>(MessageError::MissingField),
        },
{
    if msg.message_type != MessageType::ChunkRequest {
        return Ok(ChunkRequestStep::Unexpected);
    }
    match (&msg.filename, &msg.chunks) {
        (Some(f), Some(c)) => Ok(ChunkRequestStep::Serve { filename: f.clone(), chunks: c.clone() }),
        _ => Err(MessageError::MissingField),
    }
}

/// The time to live of a socket that floods a message on: one less, or none
/// when no hop is left.
pub fn next_socket_ttl(current: u32) -> (r: Option<u32>)
    ensures
        current > 1 ==> r == Some((current - 1) as u32),
        current <= 1 ==> r is None,
{
    if current > 1 {
        Some(current - 1)
    } else {
        None
    }
}

} // verus!

verus! {

/// An answer to a search, by its views: the sender's endpoint, its transfer
/// speed and the chunks it holds.
pub type PeerOffer = (PeerAddr, (u32, Seq<u8>));

/// The first index at or after `i` where the speed is below `speed`.
pub open spec fn first_slower(s: Seq<PeerOffer>, speed: u32, i: int) -> int
    decreases s.len() - i,
{
    if i < 0 || i >= s.len() {
        s.len() as int
    } else if s[i].1.0 < speed {
        i
    } else {
        first_slower(s, speed, i + 1)
    }
}

/// `e` inserted after every offer at least as fast.
pub open spec fn insert_by_speed(s: Seq<PeerOffer>, e: PeerOffer) -> Seq<PeerOffer> {
    s.insert(first_slower(s, e.1.0, 0), e)
}

/// The offers, fastest first; offers of the same speed keep their order (a
/// stable sort by decreasing speed).
pub open spec fn by_speed(s: Seq<PeerOffer>) -> Seq<PeerOffer>
    decreases s.len(),
{
    if s.len() == 0 {
        seq![]
    } else {
        insert_by_speed(by_speed(s.drop_last()), s.last())
    }
}

/// Fastest first.
pub open spec fn speeds_decrease(s: Seq<PeerOffer>) -> bool {
    forall|i: int, j: int| 0 <= i < j < s.len() ==> s[i].1.0 >= s[j].1.0
}

proof fn lemma_first_slower(s: Seq<PeerOffer>, speed: u32, i: int)
    requires
        0 <= i <= s.len(),
    ensures
        i <= first_slower(s, speed, i) <= s.len(),
        forall|k: int| i <= k < first_slower(s, speed, i) ==> s[k].1.0 >= speed,
        first_slower(s, speed, i) < s.len() ==> s[first_slower(s, speed, i)].1.0 < speed,
    decreases s.len() - i,
{
    if i < s.len() && s[i].1.0 >= speed {
        lemma_first_slower(s, speed, i + 1);
    }
}

proof fn lemma_insert_keeps_order(s: Seq<PeerOffer>, e: PeerOffer)
    requires
        speeds_decrease(s),
    ensures
        speeds_decrease(insert_by_speed(s, e)),
        insert_by_speed(s, e).to_multiset() == s.to_multiset().insert(e),
{
    let p = first_slower(s, e.1.0, 0);
    lemma_first_slower(s, e.1.0, 0);
    let t = s.insert(p, e);
    assert forall|i: int, j: int| 0 <= i < j < t.len() implies t[i].1.0 >= t[j].1.0 by {
        if j < p {
        } else if j == p {
        } else if i < p {
            assert(t[j] == s[j - 1]);
            assert(s[i].1.0 >= e.1.0);
        } else if i == p {
            assert(t[j] == s[j - 1]);
        } else {
            assert(t[i] == s[i - 1] && t[j] == s[j - 1]);
        }
    }
    broadcast use vstd::seq_lib::group_to_multiset_ensures;

    assert(t.to_multiset() =~= s.to_multiset().insert(e));
}

/// Ordering the answers: fastest first, and nothing is lost or added.
pub proof fn lemma_by_speed_sorted(s: Seq<PeerOffer>)
    ensures
        speeds_decrease(by_speed(s)),
        by_speed(s).to_multiset() == s.to_multiset(),
    decreases s.len(),
{
    if s.len() == 0 {
        assert(s =~= Seq::<PeerOffer>::empty());
    } else {
        lemma_by_speed_sorted(s.drop_last());
        lemma_insert_keeps_order(by_speed(s.drop_last()), s.last());
        broadcast use vstd::seq_lib::group_to_multiset_ensures;

        assert(s =~= s.drop_last().push(s.last()));
    }
}

/// The peers that answered, in the order in which they are asked for chunks:
/// fastest first, peers of the same speed in the order of the table.
pub fn order_peers(wanted: &Vec<(PeerAddr, (u32, Vec<u8>))>) -> (r: Vec<(PeerAddr, (u32, Vec<u8>))>)
    ensures
        wanted_entries(r@) == by_speed(wanted_entries(wanted@)),
{
    let ghost w = wanted_entries(wanted@);
    let mut r: Vec<(PeerAddr, (u32, Vec<u8>))> = Vec::new();
    let mut i: usize = 0;
    assert(w.take(0) =~= Seq::<PeerOffer>::empty());
    while i < wanted.len()
        invariant
            i <= wanted@.len(),
            w == wanted_entries(wanted@),
            wanted_entries(r@) == by_speed(w.take(i as int)),
        decreases wanted@.len() - i,
    {
        let speed = wanted[i].1.0;
        let ghost cur = wanted_entries(r@);
        let mut p: usize = 0;
        while p < r.len() && r[p].1.0 >= speed
            invariant
                p <= r@.len(),
                cur == wanted_entries(r@),
                first_slower(cur, speed, 0) == first_slower(cur, speed, p as int),
            decreases r@.len() - p,
        {
            p = p + 1;
        }
        assert(first_slower(cur, speed, p as int) == p);
        let e = (wanted[i].0, (speed, wanted[i].1.1.clone()));
        r.insert(p, e);
        proof {
            assert(w.take(i + 1).drop_last() =~= w.take(i as int));
            assert(w.take(i + 1).last() == w[i as int]);
            assert(wanted_entries(r@) =~= cur.insert(p as int, w[i as int]));
        }
        i = i + 1;
    }
    assert(w.take(wanted@.len() as int) =~= w);
    r
}

/// The chunks downloaded so far.
pub struct DownloadTracker {
    pub downloaded: Vec<u8>,
}

/// The chunks among `chunks` that are not in `done`, in order.
pub open spec fn still_missing(chunks: Seq<u8>, done: Set<u8>) -> Seq<u8>
    decreases chunks.len(),
{
    if chunks.len() == 0 {
        seq![]
    } else if done.contains(chunks.last()) {
        still_missing(chunks.drop_last(), done)
    } else {
        still_missing(chunks.drop_last(), done).push(chunks.last())
    }
}

impl DownloadTracker {
    pub open spec fn wf(&self) -> bool {
        self.downloaded@.no_duplicates()
    }

    /// The chunks downloaded so far.
    pub open spec fn done(&self) -> Set<u8> {
        self.downloaded@.to_set()
    }

    /// Nothing downloaded yet.
    pub fn new() -> (t: DownloadTracker)
        ensures
            t.wf(),
            t.done() == Set::<u8>::empty(),
    {
        let t = DownloadTracker { downloaded: Vec::new() };
        assert(t.done() =~= Set::<u8>::empty());
        t
    }

    /// The chunks of `chunks` to ask a peer for: those not downloaded yet.
    pub fn chunks_to_request(&self, chunks: &Vec<u8>) -> (r: Vec<u8>)
        ensures
            r@ == still_missing(chunks@, self.done()),
    {
        let mut r: Vec<u8> = Vec::new();
        let mut i: usize = 0;
        assert(chunks@.take(0) =~= Seq::<u8>::empty());
        while i < chunks.len()
            invariant
                i <= chunks@.len(),
                r@ == still_missing(chunks@.take(i as int), self.done()),
            decreases chunks@.len() - i,
        {
            let c = chunks[i];
            let mut have = false;
            let mut k: usize = 0;
            while k < self.downloaded.len()
                invariant
                    k <= self.downloaded@.len(),
                    have <==> exists|m: int| 0 <= m < k && self.downloaded@[m] == c,
                decreases self.downloaded@.len() - k,
            {
                if self.downloaded[k] == c {
                    have = true;
                }
                k = k + 1;
            }
            assert(have == self.downloaded@.contains(c));
            assert(chunks@.take(i + 1).drop_last() =~= chunks@.take(i as int));
            if !have {
                r.push(c);
            }
            i = i + 1;
        }
        assert(chunks@.take(chunks@.len() as int) =~= chunks@);
        r
    }

    /// Notes that `chunks` were downloaded.
    pub fn record(&mut self, chunks: &Vec<u8>)
        requires
            old(self).wf(),
        ensures
            final(self).wf(),
            final(self).done() == old(self).done().union(chunks@.to_set()),
    {
        add_chunks(&mut self.downloaded, chunks);
    }

    /// Whether fewer distinct chunks than the file has were downloaded.
    pub fn is_short_of(&self, total_chunks: u8) -> (b: bool)
        requires
            self.wf(),
        ensures
            b == (self.done().len() < total_chunks),
    {
        proof {
            self.downloaded@.unique_seq_to_set();
        }
        self.downloaded.len() < total_chunks as usize
    }

    /// Whether as many distinct chunks as the file has were downloaded.
    pub fn is_complete(&self, total_chunks: u8) -> (b: bool)
        requires
            self.wf(),
        ensures
            b == (self.done().len() == total_chunks),
    {
        proof {
            self.downloaded@.unique_seq_to_set();
        }
        self.downloaded.len() == total_chunks as usize
    }
}

} // verus!

verus! {

/// A peer is asked only for chunks that it offered and that were not
/// downloaded yet.
pub proof fn lemma_requests_are_missing_offered(chunks: Seq<u8>, done: Set<u8>)
    ensures
        forall|c: u8| #[trigger] still_missing(chunks, done).contains(c) <==> (chunks.contains(c)
            && !done.contains(c)),
    decreases chunks.len(),
{
    if chunks.len() > 0 {
        let d = chunks.drop_last();
        lemma_requests_are_missing_offered(d, done);
        crate::table::lemma_push_contains(d, chunks.last());
        crate::table::lemma_push_contains(still_missing(d, done), chunks.last());
        assert(d.push(chunks.last()) =~= chunks);
    } else {
        assert forall|c: u8| !#[trigger] chunks.contains(c) by {}
    }
}

/// A downloaded chunk is never asked for again.
pub proof fn lemma_no_chunk_downloaded_twice(done: Set<u8>, fetched: Seq<u8>, offer: Seq<u8>)
    ensures
        forall|c: u8| #[trigger] fetched.contains(c) ==> !still_missing(
            offer,
            done.union(fetched.to_set()),
        ).contains(c),
{
    lemma_requests_are_missing_offered(offer, done.union(fetched.to_set()));
    assert forall|c: u8| #[trigger] fetched.contains(c) implies done.union(fetched.to_set()).contains(c) by {
        assert(fetched.to_set().contains(c));
    }
}

/// Each hop takes one off the time to live, down to zero and no further: a
/// flood started with time to live `t` is passed on by at most `t` nodes in a row.
pub proof fn lemma_ttl_decreases(t: u32)
    ensures
        t > 0 ==> Message::decreased_ttl(Some(t)) == t - 1,
        Message::decreased_ttl(Some(t)) <= t,
        Message::decreased_ttl(Some(0)) == 0,
{
}

} // verus!
