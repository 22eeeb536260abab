//! The description of a node: where its configuration lives, which nodes are
//! its neighbors (the topology file) and at which address each node listens
//! (the configuration file).

use vstd::prelude::*;

use crate::address::PeerAddr;
use crate::file_utils::{node_folder_name, FileUtils};
use crate::metadata_parser::line_views;
use crate::table::{
    has_key, keys_unique, lemma_push_contains, lemma_table_push, lemma_table_set, table_map,
};
use crate::text::{
    chars_of, parse_unsigned, parse_unsigned_chars, split_whitespace_chars, string_of,
    trim_end_char, trim_end_matches_char, words,
};

verus! {

/// Where a node finds its configuration.
pub struct Descritor {
    pub node_id: u128,
    pub config_path: String,
    pub topology_path: String,
    pub node_folder: String,
}

/// Why the topology or the configuration could not be read.
#[derive(Debug, Clone, Copy, PartialEq, Eq, Structural)]
pub enum ConfigError {
    /// A line holds no word.
    EmptyLine,
    /// The first word of a line, without its trailing `:`, is not a node id.
    BadNodeId,
    /// A neighbor, without its trailing `,`, is not a node id.
    BadNeighborId,
    /// A configuration line has no address.
    MissingAddress,
    /// A configuration line has no port.
    MissingPort,
    /// The node's own configuration line has no transfer speed.
    MissingSpeed,
    /// The node's own transfer speed is not a number below 2^32.
    BadSpeed,
    /// The configuration has no line for the node itself.
    NoOwnEntry,
}

/// The node id that a word writes once the copies of `sep` at its end are removed.
pub open spec fn id_of_word(w: Seq<char>, sep: char) -> Option<u128> {
    match parse_unsigned(trim_end_char(w, sep), u128::MAX as nat) {
        Some(v) => Some(v as u128),
        None => None,
    }
}

/// The neighbor ids written by the words `ws`, in order.
pub open spec fn neighbor_ids(ws: Seq<Seq<char>>) -> Result<Seq<u128>, ConfigError>
    decreases ws.len(),
{
    if ws.len() == 0 {
        Ok(seq![])
    } else {
        match neighbor_ids(ws.drop_last()) {
            Err(e) => Err(e),
            Ok(l) => match id_of_word(ws.last(), ',') {
                None => Err(ConfigError::BadNeighborId),
                Some(v) => Ok(l.push(v)),
            },
        }
    }
}

/// The neighbors of `node_id` that the topology lines give: the words after
/// the id on the first line that starts with `node_id:`, or none. Every line
/// before that one must start with a node id.
pub open spec fn topology_from(node_id: u128, lines: Seq<Option<Seq<char>>>) -> Result<
    Seq<u128>,
    ConfigError,
>
    decreases lines.len(),
{
    if lines.len() == 0 {
        Ok(seq![])
    } else {
        match lines[0] {
            None => topology_from(node_id, lines.drop_first()),
            Some(l) => {
                let w = words(l);
                if w.len() == 0 {
                    Err(ConfigError::EmptyLine)
                } else {
                    match id_of_word(w[0], ':') {
                        None => Err(ConfigError::BadNodeId),
                        Some(id) => if id == node_id {
                            neighbor_ids(w.drop_first())
                        } else {
                            topology_from(node_id, lines.drop_first())
                        },
                    }
                }
            },
        }
    }
}

/// The parts of a configuration line `<id>: <address>, <port>, [<speed>]`:
/// the node id, the socket address text `<address>:<port>`, and the fourth
/// word if there is one.
pub open spec fn config_line_of(line: Seq<char>) -> Result<
    (u128, Seq<char>, Option<Seq<char>>),
    ConfigError,
> {
    let w = words(line);
    if w.len() == 0 {
        Err(ConfigError::EmptyLine)
    } else {
        match id_of_word(w[0], ':') {
            None => Err(ConfigError::BadNodeId),
            Some(id) => if w.len() < 2 {
                Err(ConfigError::MissingAddress)
            } else if w.len() < 3 {
                Err(ConfigError::MissingPort)
            } else {
                Ok(
                    (
                        id,
                        trim_end_char(w[1], ',') + seq![':'] + trim_end_char(w[2], ','),
                        if w.len() > 3 {
                            Some(w[3])
                        } else {
                            None
                        },
                    ),
                )
            },
        }
    }
}

/// The neighbors' addresses after the line of node `id`, at `addr`: set
/// when `id` is a neighbor, unchanged otherwise.
pub open spec fn with_line_addr(
    addrs: Map<u128, PeerAddr>,
    neighbors: Seq<u128>,
    id: u128,
    addr: PeerAddr,
) -> Map<u128, PeerAddr> {
    if neighbors.contains(id) {
        addrs.insert(id, addr)
    } else {
        addrs
    }
}

/// The neighbors' addresses after the line of node `id`, at `addr`, read
/// by node `node_id`: its own line leaves them as they were.
pub open spec fn addrs_after_line(
    node_id: u128,
    neighbors: Seq<u128>,
    addrs: Map<u128, PeerAddr>,
    id: u128,
    addr: PeerAddr,
) -> Map<u128, PeerAddr> {
    if id == node_id {
        addrs
    } else {
        with_line_addr(addrs, neighbors, id, addr)
    }
}

/// The neighbors' addresses after all the configuration lines, given as
/// (node id, address) pairs in file order, read by node `node_id`.
pub open spec fn addrs_after_lines(
    node_id: u128,
    neighbors: Seq<u128>,
    lines: Seq<(u128, PeerAddr)>,
) -> Map<u128, PeerAddr>
    decreases lines.len(),
{
    if lines.len() == 0 {
        Map::empty()
    } else {
        addrs_after_line(
            node_id,
            neighbors,
            addrs_after_lines(node_id, neighbors, lines.drop_last()),
            lines.last().0,
            lines.last().1,
        )
    }
}

/// Some line is for node `k`.
pub open spec fn has_line_for(lines: Seq<(u128, PeerAddr)>, k: u128) -> bool {
    exists|i: int| 0 <= i < lines.len() && lines[i].0 == k
}

/// The address on the last line for node `k`, if there is one.
pub open spec fn last_addr_for(lines: Seq<(u128, PeerAddr)>, k: u128) -> Option<PeerAddr>
    decreases lines.len(),
{
    if lines.len() == 0 {
        None
    } else if lines.last().0 == k {
        Some(lines.last().1)
    } else {
        last_addr_for(lines.drop_last(), k)
    }
}

/// One configuration line, split into its parts.
pub struct ConfigLine {
    pub node_id: u128,
    /// `<address>:<port>`, to be read as a socket address.
    pub socket_text: String,
    /// The fourth word, the transfer speed on the node's own line.
    pub speed_word: Option<String>,
}

/// The configuration read so far.
pub struct ConfigParser {
    pub node_id: u128,
    pub neighbors: Vec<u128>,
    pub ip_address: Option<PeerAddr>,
    pub transfer_speed: u32,
    pub neighbor_addrs: Vec<(u128, PeerAddr)>,
}

impl ConfigParser {
    /// The addresses of the neighbors are a table: one entry per node.
    pub open spec fn wf(&self) -> bool {
        keys_unique(self.neighbor_addrs@)
    }

    /// The addresses of the neighbors read so far.
    pub open spec fn addrs(&self) -> Map<u128, PeerAddr> {
        table_map(self.neighbor_addrs@)
    }

    /// Splits one configuration line into its parts. A line that cannot be
    /// split makes the configuration unusable: the error says why.
    pub fn scan_line(&self, line: &str) -> (r: Result<ConfigLine, ConfigError>)
        ensures
            match (r, config_line_of(line@)) {
                (Ok(c), Ok((id, text, speed))) => c.node_id == id && c.socket_text@ == text && (
                match speed {
                    Some(s) => c.speed_word matches Some(w) && w@ == s,
                    None => c.speed_word is None,
                }),
                (Err(e), Err(f)) => e == f,
                _ => false,
            },
    {
        let cs = chars_of(line);
        let w = split_whitespace_chars(cs.as_slice());
        let ghost ws = words(line@);
        if w.len() == 0 {
            return Err(ConfigError::EmptyLine);
        }
        let id_word = trim_end_matches_char(w[0].as_slice(), ':');
        let id = match parse_unsigned_chars(id_word.as_slice(), u128::MAX) {
            None => {
                return Err(ConfigError::BadNodeId);
            },
            Some(v) => v,
        };
        if w.len() < 2 {
            return Err(ConfigError::MissingAddress);
        }
        if w.len() < 3 {
            return Err(ConfigError::MissingPort);
        }
        let mut text = trim_end_matches_char(w[1].as_slice(), ',');
        text.push(':');
        let port = trim_end_matches_char(w[2].as_slice(), ',');
        let mut k: usize = 0;
        let ghost head = text@;
        while k < port.len()
            invariant
                k <= port@.len(),
                text@ == head + port@.take(k as int),
            decreases port@.len() - k,
        {
            text.push(port[k]);
            assert(port@.take(k as int).push(port@[k as int]) =~= port@.take(k + 1));
            k = k + 1;
        }
        assert(port@.take(port@.len() as int) =~= port@);
        let speed_word = if w.len() > 3 {
            Some(string_of(w[3].as_slice()))
        } else {
            None
        };
        Ok(ConfigLine { node_id: id, socket_text: string_of(text.as_slice()), speed_word })
    }

    /// Takes in one configuration line whose socket address text reads as
    /// `addr`. The node's own line gives its address and its transfer speed;
    /// the line of a neighbor gives that neighbor's address; other lines are
    /// passed over. A later line for the same node overrides an earlier one.
    /// The node's own line without a valid transfer speed makes the
    /// configuration unusable.
    pub fn apply_line(&mut self, line: &ConfigLine, addr: PeerAddr) -> (r: Result<(), ConfigError>)
        requires
            old(self).wf(),
        ensures
            final(self).wf(),
            final(self).node_id == old(self).node_id,
            final(self).neighbors@ == old(self).neighbors@,
            final(self).addrs() == addrs_after_line(
                old(self).node_id,
                old(self).neighbors@,
                old(self).addrs(),
                line.node_id,
                addr,
            ),
            line.node_id != old(self).node_id ==> {
                &&& r is Ok
                &&& final(self).ip_address == old(self).ip_address
                &&& final(self).transfer_speed == old(self).transfer_speed
                &&& final(self).addrs() == with_line_addr(
                    old(self).addrs(),
                    old(self).neighbors@,
                    line.node_id,
                    addr,
                )
            },
            line.node_id == old(self).node_id ==> {
                &&& final(self).ip_address == Some(addr)
                &&& final(self).addrs() == old(self).addrs()
                &&& match line.speed_word {
                    None => r == Err::<(), ConfigError>(ConfigError::MissingSpeed),
                    Some(w) => match parse_unsigned(w@, u32::MAX as nat) {
                        None => r == Err::<(), ConfigError>(ConfigError::BadSpeed),
                        Some(s) => r is Ok && final(self).transfer_speed == s,
                    },
                }
            },
    {
        if line.node_id != self.node_id {
            let mut known = false;
            let mut i: usize = 0;
            while i < self.neighbors.len()
                invariant
                    i <= self.neighbors@.len(),
                    known <==> exists|j: int| 0 <= j < i && self.neighbors@[j] == line.node_id,
                decreases self.neighbors@.len() - i,
            {
                if self.neighbors[i] == line.node_id {
                    known = true;
                }
                i = i + 1;
            }
            if known {
                insert_addr(&mut self.neighbor_addrs, line.node_id, addr);
            }
            Ok(())
        } else {
            self.ip_address = Some(addr);
            match &line.speed_word {
                None => Err(ConfigError::MissingSpeed),
                Some(w) => {
                    let cs = chars_of(w.as_str());
                    match parse_unsigned_chars(cs.as_slice(), 0xffff_ffff) {
                        None => Err(ConfigError::BadSpeed),
                        Some(v) => {
                            self.transfer_speed = v as u32;
                            Ok(())
                        },
                    }
                },
            }
        }
    }

    /// The node's address, its transfer speed and its neighbors' addresses.
    /// Without a line for the node itself there is no address to give, and
    /// the configuration is unusable.
    pub fn finish(self) -> (r: Result<(PeerAddr, u32, Vec<(u128, PeerAddr)>), ConfigError>)
        requires
            self.wf(),
        ensures
            match self.ip_address {
                None => r == Err::<(PeerAddr, u32, Vec<(u128, PeerAddr)>), ConfigError>(
                    ConfigError::NoOwnEntry,
                ),
                Some(a) => r matches Ok((ip, speed, nbrs)) && ip == a && speed
                    == self.transfer_speed && nbrs@ == self.neighbor_addrs@,
            },
    {
        match self.ip_address {
            None => Err(ConfigError::NoOwnEntry),
            Some(a) => Ok((a, self.transfer_speed, self.neighbor_addrs)),
        }
    }
}

/// Sets the address of node `id` in the table, adding an entry if it has none.
pub fn insert_addr(table: &mut Vec<(u128, PeerAddr)>, id: u128, addr: PeerAddr)
    requires
        keys_unique(old(table)@),
    ensures
        keys_unique(final(table)@),
        table_map(final(table)@) == table_map(old(table)@).insert(id, addr),
{
    let mut found: Option<usize> = None;
    let mut i: usize = 0;
    while i < table.len()
        invariant
            i <= table@.len(),
            found matches Some(j) ==> j < table@.len() && table@[j as int].0 == id,
            found is None ==> forall|j: int| 0 <= j < i ==> table@[j].0 != id,
        decreases table@.len() - i,
    {
        if table[i].0 == id {
            found = Some(i);
        }
        i = i + 1;
    }
    match found {
        Some(j) => {
            proof {
                lemma_table_set(table@, j as int, addr);
            }
            table.set(j, (id, addr));
        },
        None => {
            proof {
                assert(!has_key(table@, id));
                lemma_table_push(table@, id, addr);
            }
            table.push((id, addr));
        },
    }
}

fn contains_u128(v: &Vec<u128>, x: u128) -> (b: bool)
    ensures
        b == v@.contains(x),
{
    let mut i: usize = 0;
    while i < v.len()
        invariant
            i <= v@.len(),
            forall|j: int| 0 <= j < i ==> v@[j] != x,
        decreases v@.len() - i,
    {
        if v[i] == x {
            return true;
        }
        i = i + 1;
    }
    false
}

impl Descritor {
    /// The description of node `node_id`: its configuration is read from
    /// `config/config.txt` and `config/topologia.txt`, and it keeps its
    /// files in `nodes/<node_id>`.
    pub fn new(node_id: u128) -> (r: Descritor)
        ensures
            r.node_id == node_id,
            r.config_path@ == "config/config.txt"@,
            r.topology_path@ == "config/topologia.txt"@,
            r.node_folder@ == node_folder_name(node_id as nat),
    {
        Descritor {
            node_id,
            config_path: String::from_str("config/config.txt"),
            topology_path: String::from_str("config/topologia.txt"),
            node_folder: FileUtils::folder_name(node_id),
        }
    }

    /// A reader of the configuration file for this node with the given
    /// neighbors: nothing read yet, and a transfer speed of 100 unless the
    /// node's line gives one.
    pub fn config_parser(&self, neighbors: Vec<u128>) -> (p: ConfigParser)
        ensures
            p.wf(),
            p.node_id == self.node_id,
            p.neighbors@ == neighbors@,
            p.ip_address is None,
            p.transfer_speed == 100,
            p.addrs() == Map::<u128, PeerAddr>::empty(),
    {
        let p = ConfigParser {
            node_id: self.node_id,
            neighbors,
            ip_address: None,
            transfer_speed: 100,
            neighbor_addrs: Vec::new(),
        };
        assert(p.addrs() =~= Map::<u128, PeerAddr>::empty());
        p
    }

    /// The neighbors of this node given by the lines of the topology file;
    /// `None` stands for a line that could not be read, which is passed over.
    /// A line before the node's own that does not start with a node id, or a
    /// neighbor on its own line that is not a node id, makes the topology
    /// unusable: the error says which.
    pub fn parse_topology(&self, lines: &Vec<Option<String>>) -> (r: Result<Vec<u128>, ConfigError>)
        ensures
            match (r, topology_from(self.node_id, line_views(lines@))) {
                (Ok(v), Ok(ns)) => v@.no_duplicates() && v@.to_set() == ns.to_set(),
                (Err(e), Err(f)) => e == f,
                _ => false,
            },
    {
        let ghost ls = line_views(lines@);
        let mut i: usize = 0;
        assert(ls.skip(0) =~= ls);
        while i < lines.len()
            invariant
                i <= lines@.len(),
                ls == line_views(lines@),
                topology_from(self.node_id, ls) == topology_from(self.node_id, ls.skip(i as int)),
            decreases lines@.len() - i,
        {
            assert(ls.skip(i as int).drop_first() =~= ls.skip(i + 1));
            assert(ls.skip(i as int)[0] == ls[i as int]);
            match &lines[i] {
                None => {},
                Some(l) => {
                    let cs = chars_of(l.as_str());
                    let w = split_whitespace_chars(cs.as_slice());
                    let ghost ws = words(l@);
                    if w.len() == 0 {
                        return Err(ConfigError::EmptyLine);
                    }
                    let id_word = trim_end_matches_char(w[0].as_slice(), ':');
                    let id = match parse_unsigned_chars(id_word.as_slice(), u128::MAX) {
                        None => {
                            return Err(ConfigError::BadNodeId);
                        },
                        Some(v) => v,
                    };
                    if id == self.node_id {
                        return Self::neighbors_of_words(&w, Ghost(ws));
                    }
                },
            }
            i = i + 1;
        }
        assert(ls.skip(i as int) =~= Seq::<Option<Seq<char>>>::empty());
        Ok(Vec::new())
    }

    fn neighbors_of_words(w: &Vec<Vec<char>>, Ghost(ws): Ghost<Seq<Seq<char>>>) -> (r: Result<
        Vec<u128>,
        ConfigError,
    >)
        requires
            w@.len() == ws.len(),
            w@.len() > 0,
            forall|k: int| 0 <= k < w@.len() ==> #[trigger] w@[k]@ == ws[k],
        ensures
            match (r, neighbor_ids(ws.drop_first())) {
                (Ok(v), Ok(ns)) => v@.no_duplicates() && v@.to_set() == ns.to_set(),
                (Err(e), Err(f)) => e == f,
                _ => false,
            },
    {
        let ghost rest = ws.drop_first();
        let mut v: Vec<u128> = Vec::new();
        let ghost mut l: Seq<u128> = seq![];
        let mut k: usize = 1;
        assert(rest.take(0) =~= Seq::<Seq<char>>::empty());
        while k < w.len()
            invariant
                1 <= k <= w@.len(),
                w@.len() == ws.len(),
                rest == ws.drop_first(),
                forall|m: int| 0 <= m < w@.len() ==> #[trigger] w@[m]@ == ws[m],
                neighbor_ids(rest.take(k - 1)) == Ok::<Seq<u128>, ConfigError>(l),
                v@.no_duplicates(),
                v@.to_set() == l.to_set(),
            decreases w@.len() - k,
        {
            assert(rest.take(k as int).drop_last() =~= rest.take(k - 1));
            assert(rest.take(k as int).last() == ws[k as int]);
            let word = trim_end_matches_char(w[k].as_slice(), ',');
            match parse_unsigned_chars(word.as_slice(), u128::MAX) {
                None => {
                    proof {
                        lemma_neighbor_ids_err_extends(rest, k as int);
                    }
                    return Err(ConfigError::BadNeighborId);
                },
                Some(x) => {
                    let ghost before = v@;
                    if !contains_u128(&v, x) {
                        v.push(x);
                    }
                    proof {
                        lemma_push_contains(l, x);
                        lemma_push_contains(before, x);
                        assert(before.to_set() == l.to_set());
                        assert forall|y: u128| #[trigger] v@.contains(y) <==> l.push(x).contains(y) by {
                            assert(before.to_set().contains(y) == before.contains(y));
                            assert(l.to_set().contains(y) == l.contains(y));
                        }
                        l = l.push(x);
                        assert(v@.to_set() =~= l.to_set());
                    }
                },
            }
            k = k + 1;
        }
        assert(rest.take(k - 1) =~= rest);
        Ok(v)
    }
}

proof fn lemma_neighbor_ids_err_extends(ws: Seq<Seq<char>>, k: int)
    requires
        0 < k <= ws.len(),
        neighbor_ids(ws.take(k)) is Err,
    ensures
        neighbor_ids(ws) == neighbor_ids(ws.take(k)),
    decreases ws.len() - k,
{
    if k < ws.len() {
        assert(ws.take(k + 1).drop_last() =~= ws.take(k));
        lemma_neighbor_ids_err_extends(ws, k + 1);
    } else {
        assert(ws.take(k) =~= ws);
    }
}

} // verus!

verus! {

/// Only neighbors get addresses: if every address read so far belongs to a
/// neighbor from the topology, so does every address after one more line.
pub proof fn lemma_only_neighbors_have_addresses(
    addrs: Map<u128, PeerAddr>,
    neighbors: Seq<u128>,
    id: u128,
    addr: PeerAddr,
)
    requires
        forall|k: u128| #[trigger] addrs.contains_key(k) ==> neighbors.contains(k),
    ensures
        forall|k: u128|
            #[trigger] with_line_addr(addrs, neighbors, id, addr).contains_key(k)
                ==> neighbors.contains(k),
{
}

} // verus!

verus! {

/// The neighbor table that a whole configuration file gives: it holds
/// exactly the nodes, other than the node itself, that are neighbors in the
/// topology and have a configuration line, each with the address on its last
/// line.
pub proof fn lemma_config_table(node_id: u128, neighbors: Seq<u128>, lines: Seq<(u128, PeerAddr)>)
    ensures
        forall|k: u128|
            #[trigger] addrs_after_lines(node_id, neighbors, lines).contains_key(k) <==> (k
                != node_id && neighbors.contains(k) && has_line_for(lines, k)),
        forall|k: u128|
            #[trigger] addrs_after_lines(node_id, neighbors, lines).contains_key(k)
                ==> last_addr_for(lines, k) == Some(addrs_after_lines(node_id, neighbors, lines)[k]),
    decreases lines.len(),
{
    if lines.len() > 0 {
        let d = lines.drop_last();
        lemma_config_table(node_id, neighbors, d);
        assert forall|k: u128| #[trigger] has_line_for(lines, k) <==> (has_line_for(d, k)
            || lines.last().0 == k) by {
            if has_line_for(lines, k) {
                let i = choose|i: int| 0 <= i < lines.len() && lines[i].0 == k;
                if i < d.len() {
                    assert(d[i].0 == k);
                }
            }
            if has_line_for(d, k) {
                let i = choose|i: int| 0 <= i < d.len() && d[i].0 == k;
                assert(lines[i].0 == k);
            }
            if lines.last().0 == k {
                assert(lines[lines.len() - 1].0 == k);
            }
        }
        let m = addrs_after_lines(node_id, neighbors, lines);
        let md = addrs_after_lines(node_id, neighbors, d);
        assert(m == addrs_after_line(node_id, neighbors, md, lines.last().0, lines.last().1));
        assert forall|k: u128| #[trigger] m.contains_key(k) implies last_addr_for(lines, k) == Some(
            m[k],
        ) by {
            if lines.last().0 == k {
                assert(m[k] == lines.last().1);
            } else {
                assert(md.contains_key(k));
                assert(m[k] == md[k]);
                assert(last_addr_for(lines, k) == last_addr_for(d, k));
            }
        }
    } else {
        assert forall|k: u128| !#[trigger] has_line_for(lines, k) by {}
    }
}

} // verus!

verus! {

/// The neighbor table of a whole configuration: with the neighbors that the
/// topology gives (`parse_topology`, as a set), the table read from the
/// configuration lines holds exactly the topology neighbors, other than the
/// node itself, that have a configuration line.
pub proof fn lemma_parse_file_table(
    node_id: u128,
    topology: Seq<Option<Seq<char>>>,
    ns: Seq<u128>,
    neighbors: Seq<u128>,
    lines: Seq<(u128, PeerAddr)>,
)
    requires
        topology_from(node_id, topology) == Ok::<Seq<u128>, ConfigError>(ns),
        neighbors.to_set() == ns.to_set(),
    ensures
        forall|k: u128|
            #[trigger] addrs_after_lines(node_id, neighbors, lines).contains_key(k) <==> (k
                != node_id && ns.contains(k) && has_line_for(lines, k)),
{
    lemma_config_table(node_id, neighbors, lines);
    assert forall|k: u128| #[trigger] neighbors.contains(k) == ns.contains(k) by {
        assert(neighbors.to_set().contains(k) == neighbors.contains(k));
        assert(ns.to_set().contains(k) == ns.contains(k));
    }
}

} // verus!
