//! Splitting a file into chunk files of equal size (but the last), and
//! finding the order in which chunk files are joined back.

use vstd::prelude::*;

use crate::bytes::{concat, copy_bytes, views};
use crate::file_utils::{
    assembled, has_chunk_id, ids_unique, lemma_saved_chunks_rebuild, string_views,
};
use crate::text::{
    chars_of, decimal_text, find_from, is_digit, lemma_decimal_roundtrip, lemma_find_absent,
    lemma_find_first, lemma_find_none, lemma_parse_decimal_text, occurs_at, parse_unsigned,
    parse_unsigned_chars, second_piece, second_piece_chars, starts_with, starts_with_chars,
};

verus! {

/// Splits a file into `chunks_amount` chunk files.
pub struct ChunkCreator {
    pub file_path: String,
    pub chunks_amount: u8,
}

/// `a / b` rounded up.
pub open spec fn ceil_div(a: nat, b: nat) -> nat {
    if a % b == 0 {
        a / b
    } else {
        a / b + 1
    }
}

/// The size of each piece when `len` bytes are split into `n` pieces.
pub open spec fn piece_size(len: nat, n: nat) -> nat {
    ceil_div(len, n)
}

/// Piece `i` of `data` split into `n` pieces of `piece_size` bytes; the
/// pieces past the end of the data are cut short.
pub open spec fn piece(data: Seq<u8>, n: nat, i: nat) -> Seq<u8> {
    let c = piece_size(data.len(), n);
    let end = if (i + 1) * c <= data.len() {
        (i + 1) * c
    } else {
        data.len()
    };
    data.subrange((i * c) as int, end as int)
}

/// Every piece starts within the data (else cutting it would fail).
pub open spec fn pieces_fit(len: nat, n: nat) -> bool {
    n == 0 || (n - 1) * piece_size(len, n) <= len
}

/// All `n` pieces of `data`.
pub open spec fn all_pieces(data: Seq<u8>, n: nat) -> Seq<Seq<u8>> {
    Seq::new(n, |i: int| piece(data, n, i as nat))
}

/// The order key of a chunk file named `name`: the number between the first
/// and the second `.ch` in it, or 0 where there is none.
pub open spec fn chunk_order_key(name: Seq<char>) -> nat {
    match second_piece(name, seq!['.', 'c', 'h']) {
        Some(p) => match parse_unsigned(p, 255) {
            Some(v) => v,
            None => 0,
        },
        None => 0,
    }
}

/// The names among `names` that start with `prefix` and whose key is `k`, in order.
pub open spec fn key_group(names: Seq<Seq<char>>, prefix: Seq<char>, k: nat) -> Seq<Seq<char>>
    decreases names.len(),
{
    if names.len() == 0 {
        seq![]
    } else if starts_with(names.last(), prefix) && chunk_order_key(names.last()) == k {
        key_group(names.drop_last(), prefix, k).push(names.last())
    } else {
        key_group(names.drop_last(), prefix, k)
    }
}

/// The names that start with `prefix` and whose key is below `k`, ordered by
/// key; names with the same key keep their order (a stable sort by key).
pub open spec fn names_in_order(names: Seq<Seq<char>>, prefix: Seq<char>, k: nat) -> Seq<
    Seq<char>,
>
    decreases k,
{
    if k == 0 {
        seq![]
    } else {
        names_in_order(names, prefix, (k - 1) as nat) + key_group(names, prefix, (k - 1) as nat)
    }
}

proof fn lemma_piece_geometry(len: nat, n: nat)
    requires
        n > 0,
    ensures
        n * piece_size(len, n) >= len,
{
    let q = len / n;
    let r = len % n;
    assert(len == n * q + r && r < n) by (nonlinear_arith)
        requires
            n > 0,
            q == len / n,
            r == len % n,
    ;
    if r != 0 {
        assert(n * (q + 1) == n * q + n) by (nonlinear_arith);
    }
}

proof fn lemma_pieces_prefix(data: Seq<u8>, n: nat, k: nat)
    requires
        n > 0,
        k <= n,
        pieces_fit(data.len(), n),
    ensures
        concat(all_pieces(data, n).take(k as int)) == data.take(
            (if k * piece_size(data.len(), n) <= data.len() {
                k * piece_size(data.len(), n)
            } else {
                data.len()
            }) as int,
        ),
    decreases k,
{
    let c = piece_size(data.len(), n);
    if k == 0 {
        assert(all_pieces(data, n).take(0) =~= Seq::<Seq<u8>>::empty());
        assert(data.take(0) =~= Seq::<u8>::empty());
    } else {
        let j = (k - 1) as nat;
        lemma_pieces_prefix(data, n, j);
        assert(j * c <= (n - 1) * c) by (nonlinear_arith)
            requires
                j <= n - 1,
        ;
        assert(j * c + c == k * c) by (nonlinear_arith)
            requires
                j + 1 == k,
        ;
        assert(all_pieces(data, n).take(k as int).drop_last() =~= all_pieces(data, n).take(
            j as int,
        ));
        let end = if k * c <= data.len() {
            k * c
        } else {
            data.len()
        };
        assert(data.take((j * c) as int) + data.subrange((j * c) as int, end as int)
            =~= data.take(end as int));
    }
}

/// Splitting then joining: the pieces of the data, joined in order, give back
/// the data.
pub proof fn lemma_pieces_rebuild_data(data: Seq<u8>, n: nat)
    requires
        n > 0,
        pieces_fit(data.len(), n),
    ensures
        concat(all_pieces(data, n)) == data,
{
    lemma_pieces_prefix(data, n, n);
    lemma_piece_geometry(data.len(), n);
    assert(all_pieces(data, n).take(n as int) =~= all_pieces(data, n));
    assert(data.take(data.len() as int) =~= data);
}

impl ChunkCreator {
    /// A splitter of the file at `file_path` into `chunks_amount` chunks.
    pub fn new(file_path: String, chunks_amount: u8) -> (r: ChunkCreator)
        ensures
            r.file_path@ == file_path@,
            r.chunks_amount == chunks_amount,
    {
        ChunkCreator { file_path, chunks_amount }
    }

    /// Whether a file of `len` bytes can be cut into this many chunks: every
    /// chunk must start within the file.
    pub fn chunks_fit(&self, len: usize) -> (b: bool)
        ensures
            b == pieces_fit(len as nat, self.chunks_amount as nat),
    {
        let n = self.chunks_amount as usize;
        if n == 0 {
            return true;
        }
        let chunk_size = if len % n == 0 {
            len / n
        } else {
            assert(len / n < len) by (nonlinear_arith)
                requires
                    n > 0,
                    len % n != 0,
            ;
            len / n + 1
        };
        // (n - 1) * chunk_size <= len, computed without overflow.
        let mut total: usize = 0;
        let mut k: usize = 0;
        while k < n - 1
            invariant
                n == self.chunks_amount,
                n > 0,
                chunk_size == piece_size(len as nat, n as nat),
                k <= n - 1,
                total == k * chunk_size,
                total <= len,
            decreases n - 1 - k,
        {
            assert((k + 1) * chunk_size == total + chunk_size) by (nonlinear_arith)
                requires
                    total == k * chunk_size,
            ;
            if chunk_size > len - total {
                assert((n - 1) * chunk_size >= (k + 1) * chunk_size) by (nonlinear_arith)
                    requires
                        k + 1 <= n - 1,
                ;
                return false;
            }
            total = total + chunk_size;
            k = k + 1;
        }
        true
    }

    /// The contents of the chunk files for `data`, the file's content: chunk
    /// `i` holds `piece(data, chunks_amount, i)`.
    pub fn create_chunks(&self, data: &[u8]) -> (r: Vec<Vec<u8>>)
        requires
            pieces_fit(data@.len(), self.chunks_amount as nat),
        ensures
            views(r@) == all_pieces(data@, self.chunks_amount as nat),
            self.chunks_amount > 0 && data@.len() % (self.chunks_amount as nat) == 0 ==> forall|i: int|
                0 <= i < r@.len() ==> (#[trigger] r@[i])@.len() * (self.chunks_amount as nat)
                    == data@.len(),
    {
        let n = self.chunks_amount as usize;
        let len = data.len();
        let mut r: Vec<Vec<u8>> = Vec::new();
        if n == 0 {
            assert(views(r@) =~= all_pieces(data@, 0));
            return r;
        }
        let chunk_size = if len % n == 0 {
            len / n
        } else {
            assert(len / n < len) by (nonlinear_arith)
                requires
                    n > 0,
                    len % n != 0,
            ;
            len / n + 1
        };
        let mut i: usize = 0;
        while i < n
            invariant
                n == self.chunks_amount,
                n > 0,
                len == data@.len(),
                chunk_size == piece_size(len as nat, n as nat),
                pieces_fit(len as nat, n as nat),
                i <= n,
                views(r@) == all_pieces(data@, n as nat).take(i as int),
            decreases n - i,
        {
            assert(i * chunk_size <= (n - 1) * chunk_size) by (nonlinear_arith)
                requires
                    i <= n - 1,
            ;
            assert(i * chunk_size + chunk_size == (i + 1) * chunk_size) by (nonlinear_arith);
            let start = i * chunk_size;
            let end = if chunk_size <= len - start {
                start + chunk_size
            } else {
                len
            };
            let p = copy_bytes(data, start, end);
            assert(p@ == piece(data@, n as nat, i as nat));
            let ghost before = views(r@);
            r.push(p);
            assert(views(r@) =~= before.push(p@));
            assert(all_pieces(data@, n as nat).take(i + 1) =~= all_pieces(data@, n as nat).take(
                i as int,
            ).push(piece(data@, n as nat, i as nat)));
            i = i + 1;
        }
        proof {
            let n = self.chunks_amount as nat;
            if n > 0 && data@.len() % n == 0 {
                lemma_piece_size_rounds_up(data@.len(), n);
                let c = piece_size(data@.len(), n);
                assert(c * n == data@.len()) by (nonlinear_arith)
                    requires
                        c == data@.len() / n,
                        data@.len() % n == 0,
                        n > 0,
                ;
                assert forall|i: nat| i < n implies #[trigger] piece(data@, n, i).len() * n
                    == data@.len() by {
                    assert((i + 1) * c <= n * c) by (nonlinear_arith)
                        requires
                            i + 1 <= n,
                    ;
                    assert(i * c <= (i + 1) * c) by (nonlinear_arith);
                    assert(n * c == c * n) by (nonlinear_arith);
                    lemma_piece_len(data@, n, i);
                }
            }
        }
        proof {
            let n = self.chunks_amount as nat;
            assert forall|i: int| 0 <= i < r@.len() implies (#[trigger] r@[i])@ == piece(
                data@,
                n,
                i as nat,
            ) by {
                assert(views(r@)[i] == r@[i]@);
            }
        }
        r
    }

    /// The names, among the entries of the chunks folder, of the chunk files
    /// of `file_name`, in the order in which they are joined: entries named
    /// `<file_name>.ch...`, stably sorted by their order key.
    pub fn read_chunks(file_name: &str, entry_names: &Vec<String>) -> (r: Vec<String>)
        ensures
            string_views(r@) == names_in_order(
                string_views(entry_names@),
                file_name@ + seq!['.', 'c', 'h'],
                256,
            ),
    {
        let mut prefix = chars_of(file_name);
        prefix.push('.');
        prefix.push('c');
        prefix.push('h');
        let mut sep: Vec<char> = Vec::new();
        sep.push('.');
        sep.push('c');
        sep.push('h');
        assert(sep@ =~= seq!['.', 'c', 'h']);
        let ghost names = string_views(entry_names@);
        // The key of each entry, or none for entries that are not chunk files.
        let mut keys: Vec<Option<u8>> = Vec::new();
        let mut i: usize = 0;
        while i < entry_names.len()
            invariant
                i <= entry_names@.len(),
                names == string_views(entry_names@),
                sep@ == seq!['.', 'c', 'h'],
                prefix@ == file_name@ + seq!['.', 'c', 'h'],
                keys@.len() == i,
                forall|j: int|
                    0 <= j < i ==> (#[trigger] keys@[j] matches Some(k) ==> starts_with(
                        names[j],
                        prefix@,
                    ) && k == chunk_order_key(names[j])) && (keys@[j] is None ==> !starts_with(
                        names[j],
                        prefix@,
                    )),
            decreases entry_names@.len() - i,
        {
            let cs = chars_of(entry_names[i].as_str());
            assert(cs@ == names[i as int]);
            if starts_with_chars(cs.as_slice(), prefix.as_slice()) {
                let key: u8 = match second_piece_chars(cs.as_slice(), sep.as_slice()) {
                    Some(p) => match parse_unsigned_chars(p.as_slice(), 255) {
                        Some(v) => v as u8,
                        None => 0,
                    },
                    None => 0,
                };
                keys.push(Some(key));
            } else {
                keys.push(None);
            }
            i = i + 1;
        }
        let mut r: Vec<String> = Vec::new();
        let mut k: usize = 0;
        while k < 256
            invariant
                k <= 256,
                names == string_views(entry_names@),
                prefix@ == file_name@ + seq!['.', 'c', 'h'],
                keys@.len() == entry_names@.len(),
                forall|j: int|
                    0 <= j < keys@.len() ==> (#[trigger] keys@[j] matches Some(k) ==> starts_with(
                        names[j],
                        prefix@,
                    ) && k == chunk_order_key(names[j])) && (keys@[j] is None ==> !starts_with(
                        names[j],
                        prefix@,
                    )),
                string_views(r@) == names_in_order(names, prefix@, k as nat),
            decreases 256 - k,
        {
            let mut j: usize = 0;
            assert(names.take(0) =~= Seq::<Seq<char>>::empty());
            while j < entry_names.len()
                invariant
                    k < 256,
                    j <= entry_names@.len(),
                    names == string_views(entry_names@),
                    keys@.len() == entry_names@.len(),
                    forall|m: int|
                        0 <= m < keys@.len() ==> (#[trigger] keys@[m] matches Some(q)
                            ==> starts_with(names[m], prefix@) && q == chunk_order_key(names[m]))
                            && (keys@[m] is None ==> !starts_with(names[m], prefix@)),
                    string_views(r@) == names_in_order(names, prefix@, k as nat) + key_group(
                        names.take(j as int),
                        prefix@,
                        k as nat,
                    ),
                decreases entry_names@.len() - j,
            {
                assert(names.take(j + 1).drop_last() =~= names.take(j as int));
                assert(names[j as int] == entry_names@[j as int]@);
                let ghost before = string_views(r@);
                match keys[j] {
                    Some(q) => {
                        if q as usize == k {
                            r.push(entry_names[j].clone());
                            assert(string_views(r@) =~= before.push(names[j as int]));
                        }
                    },
                    None => {},
                }
                j = j + 1;
            }
            assert(names.take(entry_names@.len() as int) =~= names);
            k = k + 1;
        }
        r
    }
}

} // verus!

verus! {

/// Sharing a file end to end: the chunk files made from a file, gathered from
/// whichever nodes hold them, each once and in any order, and saved all
/// together in one `save_chunks`, give back the file.
pub proof fn lemma_fetched_pieces_rebuild_data(data: Seq<u8>, n: nat, cs: Seq<(u8, Seq<u8>)>)
    requires
        0 < n <= 256,
        pieces_fit(data.len(), n),
        ids_unique(cs),
        forall|i: int|
            0 <= i < cs.len() ==> ((#[trigger] cs[i]).0 as nat) < n && cs[i].1 == piece(
                data,
                n,
                cs[i].0 as nat,
            ),
        forall|k: int| 0 <= k < n ==> #[trigger] has_chunk_id(cs, k),
    ensures
        assembled(cs) == data,
{
    let parts = all_pieces(data, n);
    assert forall|i: int| 0 <= i < cs.len() implies ((#[trigger] cs[i]).0 as int) < parts.len()
        && cs[i].1 == parts[cs[i].0 as int] by {}
    lemma_saved_chunks_rebuild(cs, parts);
    lemma_pieces_rebuild_data(data, n);
}

} // verus!

verus! {

/// Chunk files are joined in chunk order: the chunk file `<file_name>.ch<i>`
/// made by `create_chunks` has order key `i`, when the file's name holds no `.ch`.
pub proof fn lemma_chunk_file_order_key(file_name: Seq<char>, i: u8)
    requires
        find_from(file_name, seq!['.', 'c', 'h'], 0) is None,
    ensures
        chunk_order_key(file_name + seq!['.', 'c', 'h'] + decimal_text(i as nat)) == i,
{
    let sep = seq!['.', 'c', 'h'];
    let digits = decimal_text(i as nat);
    let name = file_name + sep + digits;
    let n = file_name.len() as int;
    lemma_decimal_roundtrip(i as nat);
    assert(name.subrange(n, n + 3) =~= sep);
    assert forall|q: int| 0 <= q < n implies !occurs_at(name, sep, q) by {
        if q + 3 <= n {
            lemma_find_none(file_name, sep, 0, q);
            if occurs_at(name, sep, q) {
                assert(file_name.subrange(q, q + 3) =~= name.subrange(q, q + 3));
            }
        } else if q == n - 1 {
            assert(name[q + 1] == '.');
            assert(name.subrange(q, q + 3)[1] == name[q + 1]);
        } else {
            assert(q == n - 2);
            assert(name[q + 2] == '.');
            assert(name.subrange(q, q + 3)[2] == name[q + 2]);
        }
    }
    lemma_find_first(name, sep, 0, n);
    let rest = name.skip(n + 3);
    assert(rest =~= digits);
    assert forall|j: int| 0 <= j < rest.len() implies rest[j] != sep[0] by {
        assert(is_digit(digits[j]));
    }
    lemma_find_absent(rest, sep, 0, 0);
    lemma_parse_decimal_text(i as nat, 255);
}

} // verus!

verus! {

/// The name of chunk file `i` of `file_name`.
pub open spec fn chunk_name(file_name: Seq<char>, i: nat) -> Seq<char> {
    file_name + seq!['.', 'c', 'h'] + decimal_text(i)
}

proof fn lemma_chunk_name_key(file_name: Seq<char>, k: nat)
    requires
        k < 256,
        find_from(file_name, seq!['.', 'c', 'h'], 0) is None,
    ensures
        chunk_order_key(chunk_name(file_name, k)) == k,
        starts_with(chunk_name(file_name, k), file_name + seq!['.', 'c', 'h']),
{
    let b = k as u8;
    assert(b as nat == k);
    lemma_chunk_file_order_key(file_name, b);
    let prefix = file_name + seq!['.', 'c', 'h'];
    assert(chunk_name(file_name, k).take(prefix.len() as int) =~= prefix);
}

proof fn lemma_key_group_single(
    names: Seq<Seq<char>>,
    prefix: Seq<char>,
    k: nat,
    target: Seq<char>,
)
    requires
        names.no_duplicates(),
        forall|i: int|
            0 <= i < names.len() ==> ((starts_with(#[trigger] names[i], prefix)
                && chunk_order_key(names[i]) == k) <==> names[i] == target),
    ensures
        key_group(names, prefix, k) == (if names.contains(target) {
            seq![target]
        } else {
            Seq::<Seq<char>>::empty()
        }),
    decreases names.len(),
{
    if names.len() > 0 {
        let d = names.drop_last();
        assert forall|i: int| 0 <= i < d.len() implies ((starts_with(#[trigger] d[i], prefix)
            && chunk_order_key(d[i]) == k) <==> d[i] == target) by {
            assert(d[i] == names[i]);
        }
        lemma_key_group_single(d, prefix, k, target);
        crate::table::lemma_push_contains(d, names.last());
        assert(d.push(names.last()) =~= names);
        if names.last() == target {
            if d.contains(target) {
                let j = choose|j: int| 0 <= j < d.len() && d[j] == target;
                assert(names[j] == names[names.len() - 1]);
            }
            assert(seq![].push(target) =~= seq![target]);
        }
    } else {
        assert(!names.contains(target));
    }
}

/// Chunk files are joined back in chunk order: when the chunks folder of a
/// file holds its chunk files `0` to `n - 1` (listed in any order, among
/// other files), they are read in order `0, 1, ..., n - 1`.
pub proof fn lemma_chunk_files_read_in_order(file_name: Seq<char>, names: Seq<Seq<char>>, n: nat)
    requires
        n <= 256,
        find_from(file_name, seq!['.', 'c', 'h'], 0) is None,
        names.no_duplicates(),
        forall|i: int|
            0 <= i < names.len() && starts_with(#[trigger] names[i], file_name + seq!['.', 'c', 'h'])
                ==> exists|k: nat| k < n && names[i] == chunk_name(file_name, k),
        forall|k: nat| k < n ==> names.contains(#[trigger] chunk_name(file_name, k)),
    ensures
        names_in_order(names, file_name + seq!['.', 'c', 'h'], 256) == Seq::new(
            n,
            |k: int| chunk_name(file_name, k as nat),
        ),
{
    lemma_names_in_order_prefix(file_name, names, n, 256);
}

proof fn lemma_names_in_order_prefix(file_name: Seq<char>, names: Seq<Seq<char>>, n: nat, m: nat)
    requires
        n <= 256,
        m <= 256,
        find_from(file_name, seq!['.', 'c', 'h'], 0) is None,
        names.no_duplicates(),
        forall|i: int|
            0 <= i < names.len() && starts_with(#[trigger] names[i], file_name + seq!['.', 'c', 'h'])
                ==> exists|k: nat| k < n && names[i] == chunk_name(file_name, k),
        forall|k: nat| k < n ==> names.contains(#[trigger] chunk_name(file_name, k)),
    ensures
        names_in_order(names, file_name + seq!['.', 'c', 'h'], m) == Seq::new(
            if m <= n {
                m
            } else {
                n
            },
            |k: int| chunk_name(file_name, k as nat),
        ),
    decreases m,
{
    let prefix = file_name + seq!['.', 'c', 'h'];
    if m == 0 {
        assert(Seq::new(0, |k: int| chunk_name(file_name, k as nat)) =~= Seq::<Seq<char>>::empty());
    } else {
        let j = (m - 1) as nat;
        lemma_names_in_order_prefix(file_name, names, n, j);
        let target = chunk_name(file_name, j);
        // The entries with prefix and key `j` are exactly the chunk file `j`.
        lemma_chunk_name_key(file_name, j);
        assert forall|i: int| 0 <= i < names.len() implies ((starts_with(#[trigger] names[i], prefix)
            && chunk_order_key(names[i]) == j) <==> names[i] == target) by {
            if starts_with(names[i], prefix) {
                let k = choose|k: nat| k < n && names[i] == chunk_name(file_name, k);
                lemma_chunk_name_key(file_name, k);
            }
        }
        lemma_key_group_single(names, prefix, j, target);
        if j < n {
            assert(names.contains(target));
            assert(Seq::new(j, |k: int| chunk_name(file_name, k as nat)).push(target) =~= Seq::new(
                m,
                |k: int| chunk_name(file_name, k as nat),
            ));
        } else {
            if names.contains(target) {
                let i = choose|i: int| 0 <= i < names.len() && names[i] == target;
                assert(starts_with(names[i], prefix));
                let k = choose|k: nat| k < n && names[i] == chunk_name(file_name, k);
                lemma_chunk_name_key(file_name, k);
            }
            assert(names_in_order(names, prefix, j) + key_group(names, prefix, j) =~= names_in_order(
                names,
                prefix,
                j,
            ));
        }
    }
}

} // verus!

verus! {

/// Splitting a file into chunk files and joining them back: when the chunks
/// folder holds the chunk files that `create_chunks` made from `data`, named
/// `<file_name>.ch<i>` (`FileUtils::chunk_file_name`), listed in any order
/// among other files, reading the files in the order `read_chunks` gives and
/// joining their contents gives back `data`.
pub proof fn lemma_chunk_files_round_trip(
    file_name: Seq<char>,
    data: Seq<u8>,
    n: nat,
    names: Seq<Seq<char>>,
    content: spec_fn(Seq<char>) -> Seq<u8>,
)
    requires
        0 < n <= 255,
        pieces_fit(data.len(), n),
        find_from(file_name, seq!['.', 'c', 'h'], 0) is None,
        names.no_duplicates(),
        forall|i: int|
            0 <= i < names.len() && starts_with(#[trigger] names[i], file_name + seq!['.', 'c', 'h'])
                ==> exists|k: nat| k < n && names[i] == chunk_name(file_name, k),
        forall|k: nat| k < n ==> names.contains(#[trigger] chunk_name(file_name, k)),
        forall|k: nat| k < n ==> #[trigger] content(chunk_name(file_name, k)) == piece(data, n, k),
    ensures
        forall|k: nat| #[trigger] chunk_name(file_name, k) == crate::file_utils::chunk_file_name_spec(file_name, k),
        concat(names_in_order(names, file_name + seq!['.', 'c', 'h'], 256).map_values(content))
            == data,
{
    lemma_chunk_files_read_in_order(file_name, names, n);
    let ordered = names_in_order(names, file_name + seq!['.', 'c', 'h'], 256);
    assert(ordered.map_values(content) =~= all_pieces(data, n)) by {
        assert forall|k: int| 0 <= k < n implies #[trigger] ordered.map_values(content)[k]
            == all_pieces(data, n)[k] by {
            assert(ordered[k] == chunk_name(file_name, k as nat));
        }
    }
    lemma_pieces_rebuild_data(data, n);
}

} // verus!

verus! {

/// The chunk size is the length divided by the number of chunks, rounded
/// up: the chunks together hold at least the whole file, and one byte less
/// per chunk would not. So when the number of chunks divides the length,
/// each chunk holds exactly its share.
pub proof fn lemma_piece_size_rounds_up(len: nat, n: nat)
    requires
        n > 0,
    ensures
        piece_size(len, n) * n >= len,
        piece_size(len, n) > 0 ==> (piece_size(len, n) - 1) * n < len,
        len % n == 0 ==> piece_size(len, n) == len / n,
{
    let q = len / n;
    let r = len % n;
    assert(len == n * q + r && 0 <= r < n) by (nonlinear_arith)
        requires
            n > 0,
            q == len / n,
            r == len % n,
    ;
    if r == 0 {
        assert(q * n == len) by (nonlinear_arith)
            requires
                len == n * q,
        ;
        if q > 0 {
            assert((q - 1) * n == q * n - n) by (nonlinear_arith);
        }
    } else {
        assert((q + 1) * n == n * q + n) by (nonlinear_arith);
        assert(q * n == n * q) by (nonlinear_arith);
    }
}

/// A chunk that ends inside the file holds a full chunk size of bytes; the
/// chunks that start past the end are empty.
pub proof fn lemma_piece_len(data: Seq<u8>, n: nat, i: nat)
    requires
        n > 0,
        i * piece_size(data.len(), n) <= data.len(),
    ensures
        (i + 1) * piece_size(data.len(), n) <= data.len() ==> piece(data, n, i).len()
            == piece_size(data.len(), n),
        (i + 1) * piece_size(data.len(), n) > data.len() ==> piece(data, n, i).len()
            == data.len() - i * piece_size(data.len(), n),
{
    let c = piece_size(data.len(), n);
    assert((i + 1) * c == i * c + c) by (nonlinear_arith);
}

} // verus!
