//! A node of the network and the state it builds up while searching for a file.

use vstd::prelude::*;

use crate::address::PeerAddr;
use crate::descritor::Descritor;
use crate::file_utils::FileUtils;
use crate::message::{Message, MessageError};
use crate::table::{
    has_key, keys_unique, lemma_push_contains, lemma_table_lookup, lemma_table_push,
    lemma_table_set, table_map,
};

verus! {

/// A node of the network.
pub struct Node {
    pub node_id: u128,
    /// Where the node listens for UDP messages.
    pub ip_address: PeerAddr,
    /// Where the node listens for TCP chunk requests: the UDP port plus 100.
    pub ip_address_tcp: PeerAddr,
    pub transfer_speed: u32,
    pub descritor: Descritor,
    /// The addresses of the node's neighbors, by node id.
    pub neighbors_hashmap: Vec<(u128, PeerAddr)>,
    pub file_utils: FileUtils,
    /// For each node that answered a search: its transfer speed and the chunks it holds.
    pub wanted_chunks: Vec<(PeerAddr, (u32, Vec<u8>))>,
    /// For each search (by message id): the chunks that some node holds.
    pub chunks_counter: Vec<(String, Vec<u8>)>,
    /// The file that can be downloaded, once all its chunks were found.
    pub file_name: Option<String>,
    pub total_chunks: u8,
}

/// Why a node could not be set up.
#[derive(Debug, Clone, Copy, PartialEq, Eq, Structural)]
pub enum NodeError {
    /// The UDP port plus 100 is not a port.
    TcpPortOverflow,
}

/// The entries of the table of wanted chunks, by their views.
pub open spec fn wanted_entries(s: Seq<(PeerAddr, (u32, Vec<u8>))>) -> Seq<
    (PeerAddr, (u32, Seq<u8>)),
> {
    s.map_values(|e: (PeerAddr, (u32, Vec<u8>))| (e.0, (e.1.0, e.1.1@)))
}

/// The entries of the table of found chunks, by their views.
pub open spec fn counter_entries(s: Seq<(String, Vec<u8>)>) -> Seq<(Seq<char>, Set<u8>)> {
    s.map_values(|e: (String, Vec<u8>)| (e.0@, e.1@.to_set()))
}

/// The chunks found so far for the search `id`.
pub open spec fn found_so_far(counter: Map<Seq<char>, Set<u8>>, id: Seq<char>) -> Set<u8> {
    if counter.contains_key(id) {
        counter[id]
    } else {
        Set::empty()
    }
}

impl Node {
    pub open spec fn wf(&self) -> bool {
        &&& keys_unique(self.neighbors_hashmap@)
        &&& keys_unique(wanted_entries(self.wanted_chunks@))
        &&& keys_unique(counter_entries(self.chunks_counter@))
        &&& forall|i: int|
            0 <= i < self.chunks_counter@.len() ==> (#[trigger] self.chunks_counter@[i]).1@.no_duplicates()
    }

    /// The neighbors' addresses.
    pub open spec fn neighbors(&self) -> Map<u128, PeerAddr> {
        table_map(self.neighbors_hashmap@)
    }

    /// The answers received: by sender endpoint, its speed and its chunks.
    pub open spec fn wanted(&self) -> Map<PeerAddr, (u32, Seq<u8>)> {
        table_map(wanted_entries(self.wanted_chunks@))
    }

    /// The chunks found, by search id.
    pub open spec fn counter(&self) -> Map<Seq<char>, Set<u8>> {
        table_map(counter_entries(self.chunks_counter@))
    }

    /// A node set up from its configuration: it listens for UDP at
    /// `ip_address`, for TCP at the same IP with the port plus 100, and keeps
    /// its chunk files in `folder_path`. It has received no answer yet.
    pub fn new(
        node_id: u128,
        ip_address: PeerAddr,
        transfer_speed: u32,
        neighbors: Vec<(u128, PeerAddr)>,
        folder_path: String,
    ) -> (r: Result<Node, NodeError>)
        requires
            keys_unique(neighbors@),
        ensures
            ip_address.port + 100 > u16::MAX ==> r == Err::<Node, NodeError>(
                NodeError::TcpPortOverflow,
            ),
            ip_address.port + 100 <= u16::MAX ==> (r matches Ok(n) && {
                &&& n.wf()
                &&& n.node_id == node_id
                &&& n.ip_address == ip_address
                &&& n.ip_address_tcp == ip_address.with_port_spec((ip_address.port + 100) as u16)
                &&& n.ip_address_tcp.port == ip_address.port + 100
                &&& ip_address.ip is V4 ==> n.ip_address_tcp.ip == ip_address.ip
                &&& n.transfer_speed == transfer_speed
                &&& n.descritor.node_id == node_id
                &&& n.neighbors_hashmap@ == neighbors@
                &&& n.file_utils.node_id == node_id
                &&& n.file_utils.folder_path@ == folder_path@
                &&& n.wanted_chunks@.len() == 0
                &&& n.chunks_counter@.len() == 0
                &&& n.file_name is None
                &&& n.total_chunks == 0
            }),
    {
        if ip_address.port > 65435 {
            return Err(NodeError::TcpPortOverflow);
        }
        let ip_address_tcp = ip_address.with_port(ip_address.port + 100);
        Ok(
            Node {
                node_id,
                ip_address,
                ip_address_tcp,
                transfer_speed,
                descritor: Descritor::new(node_id),
                neighbors_hashmap: neighbors,
                file_utils: FileUtils::new(node_id, folder_path),
                wanted_chunks: Vec::new(),
                chunks_counter: Vec::new(),
                file_name: None,
                total_chunks: 0,
            },
        )
    }

    /// The address of neighbor `id`.
    pub fn neighbor(&self, id: u128) -> (r: Option<PeerAddr>)
        requires
            self.wf(),
        ensures
            match r {
                Some(a) => self.neighbors().contains_key(id) && self.neighbors()[id] == a,
                None => !self.neighbors().contains_key(id),
            },
    {
        let mut i: usize = 0;
        while i < self.neighbors_hashmap.len()
            invariant
                self.wf(),
                i <= self.neighbors_hashmap@.len(),
                forall|j: int| 0 <= j < i ==> self.neighbors_hashmap@[j].0 != id,
            decreases self.neighbors_hashmap@.len() - i,
        {
            if self.neighbors_hashmap[i].0 == id {
                proof {
                    lemma_table_lookup(self.neighbors_hashmap@, i as int);
                }
                return Some(self.neighbors_hashmap[i].1);
            }
            i = i + 1;
        }
        None
    }

    /// Takes in a `ChunksFound` answer: notes which chunks its sender holds
    /// and at what speed, adds them to the chunks found for the search, and
    /// once all `chunk_amount` chunks of the file were found, notes the file
    /// to download. Returns whether the download can start.
    pub fn record_chunks_found(&mut self, msg: &Message) -> (r: Result<bool, MessageError>)
        requires
            old(self).wf(),
        ensures
            final(self).wf(),
            final(self).node_id == old(self).node_id,
            final(self).ip_address == old(self).ip_address,
            final(self).ip_address_tcp == old(self).ip_address_tcp,
            final(self).transfer_speed == old(self).transfer_speed,
            final(self).neighbors_hashmap@ == old(self).neighbors_hashmap@,
            final(self).descritor == old(self).descritor,
            final(self).file_utils == old(self).file_utils,
            match (msg.chunks, msg.sender_ip_tcp, msg.transfer_speed, msg.id) {
                (Some(cs), Some(tcp), Some(speed), Some(id)) => {
                    let found = found_so_far(old(self).counter(), id@).union(cs@.to_set());
                    let complete = found.len() == msg.chunk_amount;
                    &&& final(self).wanted() == old(self).wanted().insert(
                        tcp.endpoint_spec(),
                        (speed, cs@),
                    )
                    &&& final(self).counter() == old(self).counter().insert(id@, found)
                    &&& !complete ==> r == Ok::<bool, MessageError>(false)
                        && final(self).file_name == old(self).file_name
                        && final(self).total_chunks == old(self).total_chunks
                    &&& complete ==> match msg.filename {
                        Some(f) => {
                            &&& r == Ok::<bool, MessageError>(true)
                            &&& final(self).file_name matches Some(g) && g@ == f@
                            &&& final(self).total_chunks == msg.chunk_amount
                        },
                        None => r == Err::<bool, MessageError>(MessageError::MissingField)
                            && final(self).file_name == old(self).file_name
                            && final(self).total_chunks == old(self).total_chunks,
                    }
                },
                _ => {
                    &&& r == Err::<bool, MessageError>(MessageError::MissingField)
                    &&& final(self).wanted() == old(self).wanted()
                    &&& final(self).counter() == old(self).counter()
                    &&& final(self).file_name == old(self).file_name
                    &&& final(self).total_chunks == old(self).total_chunks
                },
            },
    {
        let (cs, tcp, speed, id) = match (&msg.chunks, msg.sender_ip_tcp, msg.transfer_speed, &msg.id) {
            (Some(cs), Some(tcp), Some(speed), Some(id)) => (cs, tcp, speed, id),
            _ => {
                return Err(MessageError::MissingField);
            },
        };
        let key = tcp.endpoint();
        insert_wanted(&mut self.wanted_chunks, key, speed, cs.clone());
        let count = add_found_chunks(&mut self.chunks_counter, id, cs);
        if count == msg.chunk_amount as usize {
            match &msg.filename {
                Some(f) => {
                    self.file_name = Some(f.clone());
                    self.total_chunks = msg.chunk_amount;
                    Ok(true)
                },
                None => Err(MessageError::MissingField),
            }
        } else {
            Ok(false)
        }
    }
}

/// Notes that `peer` holds `chunks` and sends at `speed`, replacing what was
/// noted for it before.
pub fn insert_wanted(
    table: &mut Vec<(PeerAddr, (u32, Vec<u8>))>,
    peer: PeerAddr,
    speed: u32,
    chunks: Vec<u8>,
)
    requires
        keys_unique(wanted_entries(old(table)@)),
    ensures
        keys_unique(wanted_entries(final(table)@)),
        table_map(wanted_entries(final(table)@)) == table_map(wanted_entries(old(table)@)).insert(
            peer,
            (speed, chunks@),
        ),
{
    let ghost es = wanted_entries(table@);
    let mut found: Option<usize> = None;
    let mut i: usize = 0;
    while i < table.len()
        invariant
            es == wanted_entries(table@),
            i <= table@.len(),
            found matches Some(j) ==> j < table@.len() && table@[j as int].0 == peer,
            found is None ==> forall|j: int| 0 <= j < i ==> table@[j].0 != peer,
        decreases table@.len() - i,
    {
        if table[i].0 == peer {
            found = Some(i);
        }
        i = i + 1;
    }
    let ghost v = chunks@;
    match found {
        Some(j) => {
            proof {
                lemma_table_set(es, j as int, (speed, v));
            }
            table.set(j, (peer, (speed, chunks)));
            assert(wanted_entries(table@) =~= es.update(j as int, (es[j as int].0, (speed, v))));
        },
        None => {
            proof {
                assert(!has_key(es, peer)) by {
                    if has_key(es, peer) {
                        let k = choose|k: int| 0 <= k < es.len() && es[k].0 == peer;
                        assert(table@[k].0 == peer);
                    }
                }
                lemma_table_push(es, peer, (speed, v));
            }
            table.push((peer, (speed, chunks)));
            assert(wanted_entries(table@) =~= es.push((peer, (speed, v))));
        },
    }
}

/// Adds `chunks` to the set of chunks `set`.
pub fn add_chunks(set: &mut Vec<u8>, chunks: &Vec<u8>)
    requires
        old(set)@.no_duplicates(),
    ensures
        final(set)@.no_duplicates(),
        final(set)@.to_set() == old(set)@.to_set().union(chunks@.to_set()),
{
    let ghost start = set@;
    let mut i: usize = 0;
    while i < chunks.len()
        invariant
            i <= chunks@.len(),
            set@.no_duplicates(),
            set@.to_set() == start.to_set().union(chunks@.take(i as int).to_set()),
        decreases chunks@.len() - i,
    {
        let c = chunks[i];
        let ghost before = set@;
        let mut present = false;
        let mut k: usize = 0;
        while k < set.len()
            invariant
                k <= set@.len(),
                present <==> exists|m: int| 0 <= m < k && set@[m] == c,
            decreases set@.len() - k,
        {
            if set[k] == c {
                present = true;
            }
            k = k + 1;
        }
        if !present {
            set.push(c);
        }
        proof {
            lemma_push_contains(chunks@.take(i as int), c);
            lemma_push_contains(before, c);
            assert(chunks@.take(i + 1) =~= chunks@.take(i as int).push(c));
            assert forall|y: u8| #[trigger] set@.to_set().contains(y) == start.to_set().union(
                chunks@.take(i + 1).to_set(),
            ).contains(y) by {
                assert(before.to_set().contains(y) == before.contains(y));
                if y == c && present {
                    let m = choose|m: int| 0 <= m < before.len() && before[m] == c;
                    assert(before.contains(y));
                }
            }
            assert(set@.to_set() =~= start.to_set().union(chunks@.take(i + 1).to_set()));
        }
        i = i + 1;
    }
    assert(chunks@.take(chunks@.len() as int) =~= chunks@);
}

/// Adds `chunks` to the chunks found for the search `id`, and returns how
/// many distinct chunks were found for it.
pub fn add_found_chunks(counter: &mut Vec<(String, Vec<u8>)>, id: &String, chunks: &Vec<u8>) -> (n:
    usize)
    requires
        keys_unique(counter_entries(old(counter)@)),
        forall|i: int|
            0 <= i < old(counter)@.len() ==> (#[trigger] old(counter)@[i]).1@.no_duplicates(),
    ensures
        keys_unique(counter_entries(final(counter)@)),
        forall|i: int|
            0 <= i < final(counter)@.len() ==> (#[trigger] final(counter)@[i]).1@.no_duplicates(),
        ({
            let found = found_so_far(table_map(counter_entries(old(counter)@)), id@).union(
                chunks@.to_set(),
            );
            &&& table_map(counter_entries(final(counter)@)) == table_map(
                counter_entries(old(counter)@),
            ).insert(id@, found)
            &&& n == found.len()
        }),
{
    let ghost es = counter_entries(counter@);
    let mut found: Option<usize> = None;
    let mut i: usize = 0;
    while i < counter.len()
        invariant
            es == counter_entries(counter@),
            i <= counter@.len(),
            found matches Some(j) ==> j < counter@.len() && counter@[j as int].0@ == id@,
            found is None ==> forall|j: int| 0 <= j < i ==> counter@[j].0@ != id@,
        decreases counter@.len() - i,
    {
        if counter[i].0 == *id {
            found = Some(i);
        }
        i = i + 1;
    }
    match found {
        Some(j) => {
            let mut set = counter[j].1.clone();
            assert(set@ == counter@[j as int].1@);
            add_chunks(&mut set, chunks);
            let n = set.len();
            proof {
                lemma_table_lookup(es, j as int);
                set@.unique_seq_to_set();
                lemma_table_set(es, j as int, set@.to_set());
            }
            let key = counter[j].0.clone();
            let ghost before = counter@;
            counter.set(j, (key, set));
            proof {
                assert(counter_entries(counter@) =~= es.update(
                    j as int,
                    (es[j as int].0, counter@[j as int].1@.to_set()),
                ));
                assert forall|i: int| 0 <= i < counter@.len() implies (
                #[trigger] counter@[i]).1@.no_duplicates() by {
                    if i != j {
                        assert(counter@[i] == before[i]);
                    }
                }
            }
            n
        },
        None => {
            let mut set: Vec<u8> = Vec::new();
            add_chunks(&mut set, chunks);
            let n = set.len();
            proof {
                assert(!has_key(es, id@)) by {
                    if has_key(es, id@) {
                        let k = choose|k: int| 0 <= k < es.len() && es[k].0 == id@;
                        assert(counter@[k].0@ == id@);
                    }
                }
                set@.unique_seq_to_set();
                assert(Seq::<u8>::empty().to_set() =~= Set::<u8>::empty());
                lemma_table_push(es, id@, set@.to_set());
            }
            let key = id.clone();
            let ghost before = counter@;
            counter.push((key, set));
            proof {
                assert(counter_entries(counter@) =~= es.push((id@, set@.to_set())));
                assert forall|i: int| 0 <= i < counter@.len() implies (
                #[trigger] counter@[i]).1@.no_duplicates() by {
                    if i < before.len() {
                        assert(counter@[i] == before[i]);
                    }
                }
            }
            n
        },
    }
}

} // verus!
