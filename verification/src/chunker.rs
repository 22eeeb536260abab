//! Cutting a file into a fixed number of chunks and putting it back together.

use vstd::prelude::*;

use crate::bytes::{concat, concat_all, copy_bytes, views};

verus! {

/// Why a chunk could not be produced.
#[derive(Debug, Clone, Copy, PartialEq, Eq, Structural)]
pub enum ChunkError {
    /// The chunk position is not below the number of chunks.
    OutOfBounds,
    /// The file holds fewer bytes than the chunk needs.
    ShortFile,
}

/// Cuts a file of `file_size` bytes into `amount_of_chunks` chunks: every
/// chunk holds `file_size / amount_of_chunks` bytes, and the last one also
/// holds the remainder.
pub struct Chunker {
    pub amount_of_chunks: u32,
    pub file_size: u64,
}

/// The index of the first byte of chunk `i`.
pub open spec fn chunk_start(size: nat, n: nat, i: nat) -> nat {
    i * (size / n)
}

/// The number of bytes in chunk `i`.
pub open spec fn chunk_len(size: nat, n: nat, i: nat) -> nat {
    if i + 1 == n {
        size / n + size % n
    } else {
        size / n
    }
}

/// The bytes of chunk `i` of `file`, cut for a file of `size` bytes in `n` chunks.
pub open spec fn chunk_bytes(file: Seq<u8>, size: nat, n: nat, i: nat) -> Seq<u8> {
    file.subrange(
        chunk_start(size, n, i) as int,
        (chunk_start(size, n, i) + chunk_len(size, n, i)) as int,
    )
}

/// All `n` chunks of `file`, in order.
pub open spec fn all_chunks(file: Seq<u8>, n: nat) -> Seq<Seq<u8>> {
    Seq::new(n, |i: int| chunk_bytes(file, file.len(), n, i as nat))
}

proof fn lemma_chunk_geometry(size: nat, n: nat, i: nat)
    requires
        n > 0,
        i < n,
    ensures
        chunk_start(size, n, i) + chunk_len(size, n, i) <= size,
        i + 1 < n ==> chunk_start(size, n, i) + chunk_len(size, n, i) == chunk_start(
            size,
            n,
            i + 1,
        ),
        i + 1 == n ==> chunk_start(size, n, i) + chunk_len(size, n, i) == size,
{
    let c = size / n;
    let r = size % n;
    assert(size == n * c + r && r < n) by (nonlinear_arith)
        requires
            n > 0,
            c == size / n,
            r == size % n,
    ;
    assert(i * c + c == (i + 1) * c) by (nonlinear_arith);
    assert((i + 1) * c <= n * c) by (nonlinear_arith)
        requires
            i + 1 <= n,
    ;
    if i + 1 == n {
        assert(i * c + c == n * c) by (nonlinear_arith)
            requires
                i + 1 == n,
        ;
    }
}

proof fn lemma_chunks_prefix(file: Seq<u8>, n: nat, k: nat)
    requires
        n > 0,
        k < n,
    ensures
        concat(all_chunks(file, n).take(k as int)) == file.take(
            chunk_start(file.len(), n, k) as int,
        ),
    decreases k,
{
    let size = file.len();
    if k == 0 {
        assert(all_chunks(file, n).take(0) =~= Seq::<Seq<u8>>::empty());
        assert(file.take(0) =~= Seq::<u8>::empty());
    } else {
        lemma_chunks_prefix(file, n, (k - 1) as nat);
        lemma_chunk_geometry(size, n, (k - 1) as nat);
        assert(all_chunks(file, n).take(k as int).drop_last() =~= all_chunks(file, n).take(
            k - 1,
        ));
        assert(file.take(chunk_start(size, n, (k - 1) as nat) as int) + chunk_bytes(
            file,
            size,
            n,
            (k - 1) as nat,
        ) =~= file.take(chunk_start(size, n, k) as int));
    }
}

/// Reassembly: the chunks of a file, joined in order, give back the file.
/// This is what lets a node rebuild a file from chunks fetched one by one.
pub proof fn lemma_chunks_rebuild_file(file: Seq<u8>, n: nat)
    requires
        n > 0,
    ensures
        concat(all_chunks(file, n)) == file,
        forall|i: nat|
            i < n ==> chunk_start(file.len(), n, i) + chunk_len(file.len(), n, i) <= file.len(),
{
    let size = file.len();
    let last = (n - 1) as nat;
    lemma_chunks_prefix(file, n, last);
    lemma_chunk_geometry(size, n, last);
    assert(all_chunks(file, n).drop_last() =~= all_chunks(file, n).take(last as int));
    assert(file.take(chunk_start(size, n, last) as int) + chunk_bytes(file, size, n, last)
        =~= file);
    assert forall|i: nat| i < n implies chunk_start(size, n, i) + chunk_len(size, n, i)
        <= size by {
        lemma_chunk_geometry(size, n, i);
    }
}

impl Chunker {
    /// A chunker for a file of `file_size` bytes cut into `amount_of_chunks` chunks.
    pub fn new(file_size: u64, amount_of_chunks: u32) -> (c: Chunker)
        ensures
            c.file_size == file_size,
            c.amount_of_chunks == amount_of_chunks,
    {
        Chunker { amount_of_chunks, file_size }
    }

    /// Where chunk `chunk_position` starts in the file and how many bytes it holds.
    pub fn chunk_span(&self, chunk_position: u32) -> (r: Result<(u64, u64), ChunkError>)
        ensures
            chunk_position >= self.amount_of_chunks ==> r == Err::<(u64, u64), ChunkError>(
                ChunkError::OutOfBounds,
            ),
            chunk_position < self.amount_of_chunks ==> (r matches Ok((start, len)) && start
                == chunk_start(
                self.file_size as nat,
                self.amount_of_chunks as nat,
                chunk_position as nat,
            ) && len == chunk_len(
                self.file_size as nat,
                self.amount_of_chunks as nat,
                chunk_position as nat,
            )),
    {
        if chunk_position >= self.amount_of_chunks {
            return Err(ChunkError::OutOfBounds);
        }
        let n = self.amount_of_chunks as u64;
        let chunk_size = self.file_size / n;
        let remainder = self.file_size % n;
        proof {
            lemma_chunk_geometry(self.file_size as nat, n as nat, chunk_position as nat);
        }
        let pos = chunk_position as u64;
        assert(pos * chunk_size <= self.file_size);
        let start = pos * chunk_size;
        let len = if chunk_position == self.amount_of_chunks - 1 {
            chunk_size + remainder
        } else {
            chunk_size
        };
        Ok((start, len))
    }

    /// The bytes of chunk `chunk_position` read from `file`, the file's content.
    pub fn get_chunk(&self, file: &[u8], chunk_position: u32) -> (r: Result<Vec<u8>, ChunkError>)
        ensures
            ({
                let size = self.file_size as nat;
                let n = self.amount_of_chunks as nat;
                let i = chunk_position as nat;
                if i >= n {
                    r == Err::<Vec<u8>, ChunkError>(ChunkError::OutOfBounds)
                } else if chunk_start(size, n, i) + chunk_len(size, n, i) > file@.len() {
                    r == Err::<Vec<u8>, ChunkError>(ChunkError::ShortFile)
                } else {
                    r matches Ok(v) && v@ == chunk_bytes(file@, size, n, i)
                }
            }),
    {
        let (start, len) = match self.chunk_span(chunk_position) {
            Ok(span) => span,
            Err(e) => {
                return Err(e);
            },
        };
        let avail = file.len() as u64;
        if start > avail || len > avail - start {
            return Err(ChunkError::ShortFile);
        }
        Ok(copy_bytes(file, start as usize, (start + len) as usize))
    }

    /// The chunks joined in the order given: the content of the rebuilt file.
    pub fn construct_file(file_bytes: Vec<Vec<u8>>) -> (r: Vec<u8>)
        ensures
            r@ == concat(views(file_bytes@)),
    {
        concat_all(&file_bytes)
    }
}

} // verus!
