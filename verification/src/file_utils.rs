//! Chunk files kept in a node's folder: their names, which chunks a folder
//! holds, and how received chunks are put together.

use vstd::prelude::*;

use crate::bytes::{append_bytes, concat};
use crate::text::{
    chars_of, decimal_text, find_from, is_digit, lemma_decimal_roundtrip,
    lemma_find_absent, lemma_parse_decimal_text, occurs_at, parse_unsigned, parse_unsigned_chars,
    push_decimal, second_piece, second_piece_chars, starts_with, starts_with_chars, string_of,
};

verus! {

/// One chunk of a file, with its position among the file's chunks.
#[derive(Debug, Clone)]
pub struct ChunkData {
    pub chunk_id: u8,
    pub data: Vec<u8>,
}

impl View for ChunkData {
    type V = (u8, Seq<u8>);

    open spec fn view(&self) -> (u8, Seq<u8>) {
        (self.chunk_id, self.data@)
    }
}

/// The views of a sequence of chunks.
pub open spec fn chunk_views(cs: Seq<ChunkData>) -> Seq<(u8, Seq<u8>)> {
    cs.map_values(|c: ChunkData| c@)
}

/// The folder and the node that chunk files belong to.
pub struct FileUtils {
    pub node_id: u128,
    pub folder_path: String,
}

/// `"nodes/"` followed by the node's id: the folder of a node, relative to
/// the working directory.
pub open spec fn node_folder_name(node_id: nat) -> Seq<char> {
    seq!['n', 'o', 'd', 'e', 's', '/'] + decimal_text(node_id)
}

/// The prefix shared by the names of all chunk files of `file_name`.
pub open spec fn chunk_prefix(file_name: Seq<char>) -> Seq<char> {
    file_name + seq!['.', 'c', 'h']
}

/// The name of the file that holds chunk `chunk_id` of `file_name`.
pub open spec fn chunk_file_name_spec(file_name: Seq<char>, chunk_id: nat) -> Seq<char> {
    chunk_prefix(file_name) + decimal_text(chunk_id)
}

/// The chunk number that a directory entry named `name` holds for
/// `file_name`, if it is one of that file's chunk files.
pub open spec fn entry_chunk_id(name: Seq<char>, file_name: Seq<char>) -> Option<nat> {
    if !starts_with(name, chunk_prefix(file_name)) {
        None
    } else {
        match second_piece(name, chunk_prefix(file_name)) {
            None => None,
            Some(p) => parse_unsigned(p, 255),
        }
    }
}

/// Some entry among `names` holds chunk `k` of `file_name`.
pub open spec fn folder_has_chunk(names: Seq<Seq<char>>, file_name: Seq<char>, k: nat) -> bool {
    exists|i: int| 0 <= i < names.len() && entry_chunk_id(#[trigger] names[i], file_name) == Some(k)
}

/// The views of a sequence of strings.
pub open spec fn string_views(v: Seq<String>) -> Seq<Seq<char>> {
    v.map_values(|s: String| s@)
}

/// The chunks kept for the requests `chunks`, where `contents[i]` is what
/// reading chunk `chunks[i]` gave: the ones that could be read, in order.
pub open spec fn found_chunks(chunks: Seq<u8>, contents: Seq<Option<Seq<u8>>>) -> Seq<
    (u8, Seq<u8>),
>
    decreases chunks.len(),
{
    if chunks.len() == 0 || contents.len() == 0 {
        seq![]
    } else {
        let prev = found_chunks(chunks.drop_last(), contents.drop_last());
        match contents.last() {
            Some(d) => prev.push((chunks.last(), d)),
            None => prev,
        }
    }
}

/// The views of a sequence of optional byte vectors.
pub open spec fn contents_views(v: Seq<Option<Vec<u8>>>) -> Seq<Option<Seq<u8>>> {
    v.map_values(|o: Option<Vec<u8>>| match o {
        Some(d) => Some(d@),
        None => None,
    })
}

/// The data of the chunks numbered `k`, joined in their order in `cs`.
pub open spec fn chunk_group(cs: Seq<(u8, Seq<u8>)>, k: nat) -> Seq<u8>
    decreases cs.len(),
{
    if cs.len() == 0 {
        seq![]
    } else if cs.last().0 == k {
        chunk_group(cs.drop_last(), k) + cs.last().1
    } else {
        chunk_group(cs.drop_last(), k)
    }
}

/// The data of the chunks numbered below `k`, ordered by chunk number; chunks
/// with the same number keep their order in `cs` (a stable sort by number).
pub open spec fn chunks_in_order(cs: Seq<(u8, Seq<u8>)>, k: nat) -> Seq<u8>
    decreases k,
{
    if k == 0 {
        seq![]
    } else {
        chunks_in_order(cs, (k - 1) as nat) + chunk_group(cs, (k - 1) as nat)
    }
}

/// The content of a file made of the chunks `cs`, sorted by chunk number.
pub open spec fn assembled(cs: Seq<(u8, Seq<u8>)>) -> Seq<u8> {
    chunks_in_order(cs, 256)
}

fn chunk_prefix_chars(file_name: &str) -> (r: Vec<char>)
    ensures
        r@ == chunk_prefix(file_name@),
{
    let mut p = chars_of(file_name);
    p.push('.');
    p.push('c');
    p.push('h');
    p
}

/// The chunk number held by the entry `name`, if it is a chunk file of the
/// file whose chunk prefix is `prefix`.
fn entry_chunk_id_exec(name: &str, prefix: &Vec<char>, Ghost(file_name): Ghost<Seq<char>>) -> (r:
    Option<u8>)
    requires
        prefix@ == chunk_prefix(file_name),
    ensures
        match entry_chunk_id(name@, file_name) {
            Some(k) => r == Some(k as u8),
            None => r is None,
        },
{
    let cs = chars_of(name);
    if !starts_with_chars(cs.as_slice(), prefix.as_slice()) {
        return None;
    }
    match second_piece_chars(cs.as_slice(), prefix.as_slice()) {
        None => None,
        Some(p) => match parse_unsigned_chars(p.as_slice(), 255) {
            None => None,
            Some(v) => Some(v as u8),
        },
    }
}

impl FileUtils {
    /// The chunk-file helper of node `node_id`, whose folder is `folder_path`.
    pub fn new(node_id: u128, folder_path: String) -> (r: FileUtils)
        ensures
            r.node_id == node_id,
            r.folder_path@ == folder_path@,
    {
        FileUtils { node_id, folder_path }
    }

    /// `nodes/<node_id>`: where a node keeps its chunk files.
    pub fn folder_name(node_id: u128) -> (r: String)
        ensures
            r@ == node_folder_name(node_id as nat),
    {
        let mut v: Vec<char> = Vec::new();
        v.push('n');
        v.push('o');
        v.push('d');
        v.push('e');
        v.push('s');
        v.push('/');
        push_decimal(&mut v, node_id);
        string_of(v.as_slice())
    }

    /// `<file_name>.ch<chunk_id>`: the name of the file that holds a chunk.
    pub fn chunk_file_name(file_name: &str, chunk_id: u8) -> (r: String)
        ensures
            r@ == chunk_file_name_spec(file_name@, chunk_id as nat),
    {
        let mut v = chunk_prefix_chars(file_name);
        push_decimal(&mut v, chunk_id as u128);
        string_of(v.as_slice())
    }

    /// The chunk numbers of `file_name` that the folder holds, given the
    /// names of the files in the folder: each once, in increasing order.
    pub fn get_chunks_from_folder(&self, file_name: &str, entry_names: &Vec<String>) -> (r: Vec<
        u8,
    >)
        ensures
            forall|i: int, j: int| 0 <= i < j < r@.len() ==> r@[i] < r@[j],
            forall|k: u8|
                #![trigger r@.contains(k)]
                r@.contains(k) <==> folder_has_chunk(
                    string_views(entry_names@),
                    file_name@,
                    k as nat,
                ),
            forall|k: u8|
                #![trigger r@.contains(k)]
                r@.contains(k) ==> exists|i: int|
                    0 <= i < entry_names@.len() && entry_names@[i]@.len() >= file_name@.len() + 3
                        && #[trigger] entry_names@[i]@.take(file_name@.len() + 3int) == file_name@
                        + seq!['.', 'c', 'h'],
    {
        let prefix = chunk_prefix_chars(file_name);
        let ghost names = string_views(entry_names@);
        let mut present: Vec<bool> = Vec::new();
        let mut k: usize = 0;
        while k < 256
            invariant
                k <= 256,
                present@.len() == k,
                forall|m: int| 0 <= m < k ==> !(#[trigger] present@[m]),
            decreases 256 - k,
        {
            present.push(false);
            k = k + 1;
        }
        let mut i: usize = 0;
        while i < entry_names.len()
            invariant
                prefix@ == chunk_prefix(file_name@),
                names == string_views(entry_names@),
                i <= entry_names@.len(),
                present@.len() == 256,
                forall|m: int|
                    0 <= m < 256 ==> (#[trigger] present@[m] <==> exists|j: int|
                        0 <= j < i && entry_chunk_id(#[trigger] names[j], file_name@) == Some(
                            m as nat,
                        )),
            decreases entry_names@.len() - i,
        {
            let id = entry_chunk_id_exec(entry_names[i].as_str(), &prefix, Ghost(file_name@));
            assert(names[i as int] == entry_names@[i as int]@);
            match id {
                Some(c) => {
                    present.set(c as usize, true);
                },
                None => {},
            }
            assert forall|m: int|
                0 <= m < 256 implies (#[trigger] present@[m] <==> exists|j: int|
                0 <= j < i + 1 && entry_chunk_id(#[trigger] names[j], file_name@) == Some(
                    m as nat,
                )) by {
                if present@[m] && !(exists|j: int|
                    0 <= j < i && entry_chunk_id(#[trigger] names[j], file_name@) == Some(
                        m as nat,
                    )) {
                    assert(entry_chunk_id(names[i as int], file_name@) == Some(m as nat));
                }
            }
            i = i + 1;
        }
        let mut r: Vec<u8> = Vec::new();
        let mut k: usize = 0;
        while k < 256
            invariant
                k <= 256,
                present@.len() == 256,
                names == string_views(entry_names@),
                forall|m: int|
                    0 <= m < 256 ==> (#[trigger] present@[m] <==> exists|j: int|
                        0 <= j < entry_names@.len() && entry_chunk_id(
                            #[trigger] names[j],
                            file_name@,
                        ) == Some(m as nat)),
                forall|a: int, b: int| 0 <= a < b < r@.len() ==> r@[a] < r@[b],
                forall|a: int| 0 <= a < r@.len() ==> r@[a] < k,
                forall|m: u8| #![trigger r@.contains(m)] m < k ==> (r@.contains(m) <==> present@[m as int]),
                forall|m: u8| #![trigger r@.contains(m)] m >= k ==> !r@.contains(m),
            decreases 256 - k,
        {
            let ghost before = r@;
            if present[k] {
                r.push(k as u8);
            }
            assert forall|m: u8| #![trigger r@.contains(m)] m < k + 1 implies (r@.contains(m)
                <==> present@[m as int]) by {
                if m < k {
                    if r@.contains(m) && !before.contains(m) {
                        let w = choose|w: int| 0 <= w < r@.len() && r@[w] == m;
                        assert(w == before.len());
                    }
                    if before.contains(m) {
                        let w = choose|w: int| 0 <= w < before.len() && before[w] == m;
                        assert(r@[w] == m);
                    }
                } else {
                    if present@[m as int] {
                        assert(r@[r@.len() - 1] == m);
                    }
                    if r@.contains(m) && !before.contains(m) {
                    }
                }
            }
            assert forall|m: u8| #![trigger r@.contains(m)] m >= k + 1 implies !r@.contains(m) by {
                if r@.contains(m) {
                    let w = choose|w: int| 0 <= w < r@.len() && r@[w] == m;
                    if w < before.len() {
                        assert(before[w] == m);
                        assert(before.contains(m));
                    }
                }
            }
            k = k + 1;
        }
        assert forall|m: u8| #![trigger r@.contains(m)] r@.contains(m) <==> folder_has_chunk(
            names,
            file_name@,
            m as nat,
        ) by {
            assert(present@[m as int] <==> folder_has_chunk(names, file_name@, m as nat));
        }
        assert forall|m: u8| #![trigger r@.contains(m)] r@.contains(m) implies exists|i: int|
            0 <= i < entry_names@.len() && entry_names@[i]@.len() >= file_name@.len() + 3
                && #[trigger] entry_names@[i]@.take(file_name@.len() + 3int) == file_name@ + seq![
                '.',
                'c',
                'h',
            ] by {
            assert(folder_has_chunk(names, file_name@, m as nat));
            let i = choose|i: int|
                0 <= i < names.len() && entry_chunk_id(#[trigger] names[i], file_name@) == Some(
                    m as nat,
                );
            lemma_chunk_entry_has_prefix(names[i], file_name@);
            assert(names[i] == entry_names@[i]@);
        }
        r
    }

    /// The chunks among `chunks` that could be read, each with its data, in
    /// the order requested; `contents[i]` is what reading chunk `chunks[i]`
    /// from the folder gave.
    pub fn get_chunks_data(&self, chunks: &[u8], contents: &Vec<Option<Vec<u8>>>) -> (r: Vec<
        ChunkData,
    >)
        requires
            contents@.len() == chunks@.len(),
        ensures
            chunk_views(r@) == found_chunks(chunks@, contents_views(contents@)),
    {
        let mut chunk_datas: Vec<ChunkData> = Vec::new();
        let mut i: usize = 0;
        while i < chunks.len()
            invariant
                contents@.len() == chunks@.len(),
                i <= chunks@.len(),
                chunk_views(chunk_datas@) == found_chunks(
                    chunks@.take(i as int),
                    contents_views(contents@).take(i as int),
                ),
            decreases chunks@.len() - i,
        {
            let ghost before = chunk_views(chunk_datas@);
            assert(chunks@.take(i + 1).drop_last() =~= chunks@.take(i as int));
            assert(contents_views(contents@).take(i + 1).drop_last() =~= contents_views(
                contents@,
            ).take(i as int));
            match &contents[i] {
                Some(d) => {
                    let chunk_id = chunks[i];
                    chunk_datas.push(ChunkData { chunk_id, data: d.clone() });
                    assert(chunk_views(chunk_datas@) =~= before.push((chunk_id, d@)));
                },
                None => {},
            }
            i = i + 1;
        }
        assert(chunks@.take(chunks@.len() as int) =~= chunks@);
        assert(contents_views(contents@).take(chunks@.len() as int) =~= contents_views(
            contents@,
        ));
        chunk_datas
    }

    /// The content of the file made of the received chunks: their data joined
    /// in increasing chunk number, chunks with the same number in the order
    /// received.
    pub fn save_chunks(&self, chunk_datas: &[ChunkData]) -> (r: Vec<u8>)
        ensures
            r@ == assembled(chunk_views(chunk_datas@)),
            r@.len() == concat(chunk_views(chunk_datas@).map_values(|c: (u8, Seq<u8>)| c.1)).len(),
            (forall|i: int, j: int|
                0 <= i <= j < chunk_datas@.len() ==> chunk_datas@[i].chunk_id
                    <= chunk_datas@[j].chunk_id) ==> r@ == concat(
                chunk_views(chunk_datas@).map_values(|c: (u8, Seq<u8>)| c.1),
            ),
    {
        proof {
            let cs = chunk_views(chunk_datas@);
            lemma_saved_length(cs);
            if forall|i: int, j: int|
                0 <= i <= j < chunk_datas@.len() ==> chunk_datas@[i].chunk_id
                    <= chunk_datas@[j].chunk_id {
                assert forall|i: int, j: int| 0 <= i <= j < cs.len() implies cs[i].0 <= cs[j].0 by {
                    assert(cs[i].0 == chunk_datas@[i].chunk_id);
                    assert(cs[j].0 == chunk_datas@[j].chunk_id);
                }
                lemma_saved_in_order_is_join(cs);
            }
        }
        let ghost cs = chunk_views(chunk_datas@);
        let mut r: Vec<u8> = Vec::new();
        let mut k: usize = 0;
        while k < 256
            invariant
                k <= 256,
                cs == chunk_views(chunk_datas@),
                r@ == chunks_in_order(cs, k as nat),
            decreases 256 - k,
        {
            let mut i: usize = 0;
            assert(cs.take(0) =~= Seq::<(u8, Seq<u8>)>::empty());
            while i < chunk_datas.len()
                invariant
                    k < 256,
                    i <= chunk_datas@.len(),
                    cs == chunk_views(chunk_datas@),
                    r@ == chunks_in_order(cs, k as nat) + chunk_group(cs.take(i as int), k as nat),
                decreases chunk_datas@.len() - i,
            {
                assert(cs.take(i + 1).drop_last() =~= cs.take(i as int));
                assert(cs[i as int] == chunk_datas@[i as int]@);
                if chunk_datas[i].chunk_id as usize == k {
                    append_bytes(&mut r, chunk_datas[i].data.as_slice());
                }
                i = i + 1;
            }
            assert(cs.take(chunk_datas@.len() as int) =~= cs);
            k = k + 1;
        }
        r
    }
}

} // verus!

verus! {

/// A chunk file is listed under its chunk number: the entry named
/// `<file_name>.ch<k>` counts as chunk `k` of `file_name`.
pub proof fn lemma_chunk_file_name_read_back(file_name: Seq<char>, k: u8)
    ensures
        entry_chunk_id(chunk_file_name_spec(file_name, k as nat), file_name) == Some(k as nat),
{
    let prefix = chunk_prefix(file_name);
    let digits = decimal_text(k as nat);
    let name = chunk_file_name_spec(file_name, k as nat);
    lemma_decimal_roundtrip(k as nat);
    assert(name.take(prefix.len() as int) =~= prefix);
    assert(name.subrange(0, prefix.len() as int) =~= prefix);
    assert(occurs_at(name, prefix, 0));
    assert(find_from(name, prefix, 0) == Some(0int));
    let rest = name.skip(prefix.len() as int);
    assert(rest =~= digits);
    let dot = file_name.len() as int;
    assert(prefix[dot] == '.');
    assert forall|j: int| 0 <= j < rest.len() implies rest[j] != prefix[dot] by {
        assert(is_digit(digits[j]));
    }
    lemma_find_absent(rest, prefix, 0, dot);
    lemma_parse_decimal_text(k as nat, 255);
}

/// Once a node keeps chunk `k` of a file in its folder, it reports holding it.
pub proof fn lemma_saved_chunk_is_listed(names: Seq<Seq<char>>, file_name: Seq<char>, k: u8)
    requires
        names.contains(chunk_file_name_spec(file_name, k as nat)),
    ensures
        folder_has_chunk(names, file_name, k as nat),
{
    lemma_chunk_file_name_read_back(file_name, k);
    let i = choose|i: int| 0 <= i < names.len() && names[i] == chunk_file_name_spec(
        file_name,
        k as nat,
    );
    assert(entry_chunk_id(names[i], file_name) == Some(k as nat));
}

/// Some chunk is numbered `k`.
pub open spec fn has_chunk_id(cs: Seq<(u8, Seq<u8>)>, k: int) -> bool {
    exists|i: int| 0 <= i < cs.len() && cs[i].0 == k
}

/// Chunk numbers appear once each.
pub open spec fn ids_unique(cs: Seq<(u8, Seq<u8>)>) -> bool {
    forall|i: int, j: int| 0 <= i < cs.len() && 0 <= j < cs.len() && i != j ==> cs[i].0 != cs[j].0
}

proof fn lemma_group_of_unique(cs: Seq<(u8, Seq<u8>)>, k: nat)
    requires
        ids_unique(cs),
    ensures
        (forall|i: int| 0 <= i < cs.len() ==> cs[i].0 != k) ==> chunk_group(cs, k) == Seq::<
            u8,
        >::empty(),
        forall|i: int| 0 <= i < cs.len() && cs[i].0 == k ==> chunk_group(cs, k) == cs[i].1,
    decreases cs.len(),
{
    if cs.len() > 0 {
        let d = cs.drop_last();
        assert(ids_unique(d));
        lemma_group_of_unique(d, k);
        if cs.last().0 == k {
            assert forall|i: int| 0 <= i < d.len() implies d[i].0 != k by {
                assert(cs[i] == d[i]);
            }
            assert(chunk_group(d, k) + cs.last().1 =~= cs.last().1);
        } else {
            assert forall|i: int| 0 <= i < cs.len() && cs[i].0 == k implies chunk_group(cs, k)
                == cs[i].1 by {
                assert(i < d.len());
                assert(d[i] == cs[i]);
            }
        }
    }
}

/// Saving downloaded chunks rebuilds the file: when the chunks received are
/// the parts of a file, each numbered by its position and each received once,
/// in whatever order they came, the saved content is the parts joined in order.
pub proof fn lemma_saved_chunks_rebuild(cs: Seq<(u8, Seq<u8>)>, parts: Seq<Seq<u8>>)
    requires
        parts.len() <= 256,
        ids_unique(cs),
        forall|i: int|
            0 <= i < cs.len() ==> ((#[trigger] cs[i]).0 as int) < parts.len() && cs[i].1
                == parts[cs[i].0 as int],
        forall|k: int| 0 <= k < parts.len() ==> #[trigger] has_chunk_id(cs, k),
    ensures
        assembled(cs) == concat(parts),
{
    lemma_ordered_prefix(cs, parts, 256);
    assert(parts.take(parts.len() as int) =~= parts);
}

proof fn lemma_ordered_prefix(cs: Seq<(u8, Seq<u8>)>, parts: Seq<Seq<u8>>, k: nat)
    requires
        parts.len() <= 256,
        ids_unique(cs),
        forall|i: int|
            0 <= i < cs.len() ==> ((#[trigger] cs[i]).0 as int) < parts.len() && cs[i].1
                == parts[cs[i].0 as int],
        forall|m: int| 0 <= m < parts.len() ==> #[trigger] has_chunk_id(cs, m),
    ensures
        chunks_in_order(cs, k) == concat(parts.take(if k <= parts.len() { k as int } else { parts.len() as int })),
    decreases k,
{
    if k == 0 {
        assert(parts.take(0) =~= Seq::<Seq<u8>>::empty());
    } else {
        let j = (k - 1) as nat;
        lemma_ordered_prefix(cs, parts, j);
        lemma_group_of_unique(cs, j);
        if j < parts.len() {
            assert(has_chunk_id(cs, j as int));
            let i = choose|i: int| 0 <= i < cs.len() && cs[i].0 == j;
            assert(chunk_group(cs, j) == parts[j as int]);
            assert(parts.take(k as int).drop_last() =~= parts.take(j as int));
        } else {
            assert forall|i: int| 0 <= i < cs.len() implies cs[i].0 != j by {
                assert((cs[i].0 as int) < parts.len());
            }
            assert(chunks_in_order(cs, j) + chunk_group(cs, j) =~= chunks_in_order(cs, j));
        }
    }
}

} // verus!

verus! {

/// Only the file's own chunk files count: an entry is a chunk of `file_name`
/// only if its name begins with `file_name` followed by `.ch`, and the chunk
/// number read from it is at most 255.
pub proof fn lemma_chunk_entry_has_prefix(name: Seq<char>, file_name: Seq<char>)
    ensures
        entry_chunk_id(name, file_name) matches Some(k) ==> {
            &&& name.len() >= file_name.len() + 3
            &&& name.take(file_name.len() + 3int) == file_name + seq!['.', 'c', 'h']
            &&& k <= 255
        },
{
}

/// Received chunks are saved whole: the saved content is exactly as long as
/// all the received data together, whatever chunk numbers are missing.
pub proof fn lemma_saved_length(cs: Seq<(u8, Seq<u8>)>)
    ensures
        assembled(cs).len() == concat(cs.map_values(|c: (u8, Seq<u8>)| c.1)).len(),
    decreases cs.len(),
{
    if cs.len() > 0 {
        let d = cs.drop_last();
        lemma_saved_length(d);
        lemma_in_order_len_step(d, cs.last(), 256);
        assert(cs =~= d.push(cs.last()));
        let vs = cs.map_values(|c: (u8, Seq<u8>)| c.1);
        assert(vs.drop_last() =~= d.map_values(|c: (u8, Seq<u8>)| c.1));
        assert(vs.last() == cs.last().1);
        assert(concat(vs) == concat(vs.drop_last()) + vs.last());
    } else {
        lemma_in_order_empty(cs, 256);
        assert(cs.map_values(|c: (u8, Seq<u8>)| c.1) =~= Seq::<Seq<u8>>::empty());
    }
}

proof fn lemma_in_order_empty(cs: Seq<(u8, Seq<u8>)>, k: nat)
    requires
        cs.len() == 0,
    ensures
        chunks_in_order(cs, k) == Seq::<u8>::empty(),
    decreases k,
{
    if k > 0 {
        lemma_in_order_empty(cs, (k - 1) as nat);
        assert(chunks_in_order(cs, (k - 1) as nat) + chunk_group(cs, (k - 1) as nat)
            =~= Seq::<u8>::empty());
    }
}

proof fn lemma_in_order_len_step(d: Seq<(u8, Seq<u8>)>, e: (u8, Seq<u8>), k: nat)
    ensures
        chunks_in_order(d.push(e), k).len() == chunks_in_order(d, k).len() + if (e.0 as nat) < k {
            e.1.len()
        } else {
            0
        },
    decreases k,
{
    if k > 0 {
        let j = (k - 1) as nat;
        lemma_in_order_len_step(d, e, j);
        assert(d.push(e).drop_last() =~= d);
    }
}

/// Saving chunks that already come in chunk order writes their data as it
/// is, one after another: `save_chunks` only puts chunks in order, it neither
/// drops nor changes any.
pub proof fn lemma_saved_in_order_is_join(cs: Seq<(u8, Seq<u8>)>)
    requires
        forall|i: int, j: int| 0 <= i <= j < cs.len() ==> cs[i].0 <= cs[j].0,
    ensures
        assembled(cs) == concat(cs.map_values(|c: (u8, Seq<u8>)| c.1)),
    decreases cs.len(),
{
    if cs.len() == 0 {
        lemma_in_order_empty(cs, 256);
        assert(cs.map_values(|c: (u8, Seq<u8>)| c.1) =~= Seq::<Seq<u8>>::empty());
    } else {
        let d = cs.drop_last();
        let e = cs.last();
        assert(cs =~= d.push(e));
        lemma_saved_in_order_is_join(d);
        let m = e.0 as nat;
        // Above the last chunk's number there is nothing more.
        lemma_in_order_flat_above(d, m + 1, 256);
        lemma_in_order_flat_above(cs, m + 1, 256);
        lemma_in_order_below_last(d, e, m);
        assert(chunk_group(cs, m) == chunk_group(d, m) + e.1);
        assert(chunks_in_order(cs, m + 1) == chunks_in_order(cs, m) + chunk_group(cs, m));
        assert(chunks_in_order(d, m + 1) == chunks_in_order(d, m) + chunk_group(d, m));
        assert(cs.map_values(|c: (u8, Seq<u8>)| c.1).drop_last() =~= d.map_values(
            |c: (u8, Seq<u8>)| c.1,
        ));
    }
}

proof fn lemma_group_absent(cs: Seq<(u8, Seq<u8>)>, k: nat)
    requires
        forall|i: int| 0 <= i < cs.len() ==> cs[i].0 != k,
    ensures
        chunk_group(cs, k) == Seq::<u8>::empty(),
    decreases cs.len(),
{
    if cs.len() > 0 {
        lemma_group_absent(cs.drop_last(), k);
    }
}

/// With every chunk number below `m`, nothing is added from `m` on.
proof fn lemma_in_order_flat_above(cs: Seq<(u8, Seq<u8>)>, m: nat, k: nat)
    requires
        forall|i: int| 0 <= i < cs.len() ==> (cs[i].0 as nat) < m,
        m <= k,
    ensures
        chunks_in_order(cs, k) == chunks_in_order(cs, m),
    decreases k,
{
    if k > m {
        let j = (k - 1) as nat;
        lemma_in_order_flat_above(cs, m, j);
        lemma_group_absent(cs, j);
        assert(chunks_in_order(cs, j) + chunk_group(cs, j) =~= chunks_in_order(cs, j));
    }
}

/// Below the number of the last chunk, adding it changes nothing.
proof fn lemma_in_order_below_last(d: Seq<(u8, Seq<u8>)>, e: (u8, Seq<u8>), k: nat)
    requires
        k <= e.0,
    ensures
        chunks_in_order(d.push(e), k) == chunks_in_order(d, k),
    decreases k,
{
    if k > 0 {
        let j = (k - 1) as nat;
        lemma_in_order_below_last(d, e, j);
        assert(d.push(e).drop_last() =~= d);
    }
}

} // verus!
