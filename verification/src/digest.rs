//! The per-file incremental digest: SHA-1 digests of the file's leading
//! chunks, computed once on demand and memoized.

use crate::content::{chunk_end, spec_chunk};
use crate::hashing::{copy_bytes, sha1_chunk, sha1_of};
use crate::reader::ChunkedReader;
use crate::CHUNK_SIZE;
use vstd::prelude::*;

verus! {

/// Owns one file's `ChunkedReader` and the digests of the chunks covered so
/// far. Coverage is monotone: bytes already folded in are never read again,
/// however many comparisons the file takes part in.
pub struct IncrementalDigest {
    reader: ChunkedReader,
    hashes: Vec<Vec<u8>>,
}

impl IncrementalDigest {
    /// The full byte content of the file.
    pub closed spec fn data_seq(self) -> Seq<u8> {
        self.reader.data_seq()
    }

    /// The chunk digests computed so far.
    pub closed spec fn spec_hashes(self) -> Seq<Seq<u8>> {
        self.hashes@.map_values(|h: Vec<u8>| h@)
    }

    /// How many leading bytes have been folded into the digest.
    pub closed spec fn covered(self) -> int {
        self.reader.spec_cursor()
    }

    /// The reader cursor sits exactly at the end of the hashed prefix, and
    /// every stored digest is the SHA-1 of its chunk.
    pub closed spec fn wf(self) -> bool {
        let len = self.data_seq().len() as int;
        let n = self.spec_hashes().len() as int;
        &&& self.reader.wf()
        &&& self.reader.spec_cursor() == if n * CHUNK_SIZE <= len {
            n * CHUNK_SIZE
        } else {
            len
        }
        &&& n == 0 || (n - 1) * CHUNK_SIZE < len
        &&& forall|j: int|
            0 <= j < n ==> self.spec_hashes()[j] == sha1_of(spec_chunk(self.data_seq(), j))
    }

    /// Coverage never exceeds the file's length.
    pub proof fn lemma_covered_bounded(self)
        requires
            self.wf(),
        ensures
            0 <= self.covered() <= self.data_seq().len(),
    {
    }

    pub fn new(data: Vec<u8>) -> (r: Self)
        ensures
            r.wf(),
            r.data_seq() == data@,
            r.covered() == 0,
            r.spec_hashes().len() == 0,
    {
        IncrementalDigest { reader: ChunkedReader::new(data), hashes: Vec::new() }
    }

    /// Declared length of the file.
    pub fn data_len(&self) -> (r: usize)
        ensures
            r == self.data_seq().len(),
    {
        self.reader.data_len()
    }

    /// Count of bytes ever pulled from the reader.
    pub fn bytes_read(&self) -> (r: usize)
        requires
            self.wf(),
        ensures
            r == self.covered(),
    {
        self.reader.bytes_read()
    }

    /// Pulls the next chunk, folds it in, and returns its digest.
    fn grow_one(&mut self) -> (h: Vec<u8>)
        requires
            old(self).wf(),
            old(self).covered() < old(self).data_seq().len(),
        ensures
            final(self).wf(),
            final(self).data_seq() == old(self).data_seq(),
            old(self).covered() == old(self).spec_hashes().len() * CHUNK_SIZE,
            h@ == sha1_of(
                spec_chunk(old(self).data_seq(), old(self).spec_hashes().len() as int),
            ),
            final(self).spec_hashes() == old(self).spec_hashes().push(h@),
            final(self).covered() == chunk_end(
                old(self).data_seq().len() as int,
                old(self).spec_hashes().len() as int,
            ),
            old(self).covered() < final(self).covered() <= old(self).data_seq().len(),
    {
        proof {
            let len = self.data_seq().len() as int;
            let n = self.spec_hashes().len() as int;
            assert(n * CHUNK_SIZE == self.covered() && n * CHUNK_SIZE < len);
        }
        let chunk = match self.reader.next_chunk(CHUNK_SIZE) {
            Some(c) => c,
            None => vstd::pervasive::unreached(),
        };
        let h = sha1_chunk(chunk.as_slice());
        let out = copy_bytes(&h);
        let ghost old_hashes = self.spec_hashes();
        self.hashes.push(h);
        proof {
            assert(self.spec_hashes() =~= old_hashes.push(out@));
        }
        out
    }

    /// Digest of chunk `i`, memoized: computed at most once per file.
    pub(crate) fn chunk_digest(&mut self, i: usize) -> (h: Vec<u8>)
        requires
            old(self).wf(),
            i as int <= old(self).spec_hashes().len(),
            i * CHUNK_SIZE < old(self).data_seq().len(),
        ensures
            final(self).wf(),
            final(self).data_seq() == old(self).data_seq(),
            h@ == sha1_of(spec_chunk(old(self).data_seq(), i as int)),
            i < old(self).spec_hashes().len() ==> *final(self) == *old(self),
            final(self).covered() == ({
                let needed = chunk_end(old(self).data_seq().len() as int, i as int);
                if needed <= old(self).covered() {
                    old(self).covered()
                } else {
                    needed
                }
            }),
            final(self).covered() <= old(self).data_seq().len(),
            final(self).spec_hashes().len() >= i + 1,
    {
        if i < self.hashes.len() {
            proof {
                let len = self.data_seq().len() as int;
                let n = self.spec_hashes().len() as int;
                assert(chunk_end(len, i as int) <= if n * CHUNK_SIZE <= len {
                    n * CHUNK_SIZE
                } else {
                    len
                });
                assert(self.spec_hashes()[i as int] == sha1_of(
                    spec_chunk(self.data_seq(), i as int),
                ));
                assert(self.spec_hashes()[i as int] == self.hashes@[i as int]@);
            }
            copy_bytes(&self.hashes[i])
        } else {
            self.grow_one()
        }
    }

    /// Grows coverage to at least `target` bytes (or to the end of the file
    /// if it is shorter); a no-op when that much is already covered.
    pub fn extend(&mut self, target: u64)
        requires
            old(self).wf(),
        ensures
            final(self).wf(),
            final(self).data_seq() == old(self).data_seq(),
            ({
                let len = old(self).data_seq().len() as int;
                let goal = if len <= target { len } else { target as int };
                &&& goal <= old(self).covered() ==> *final(self) == *old(self)
                &&& final(self).covered() >= goal
                &&& final(self).covered() >= old(self).covered()
                &&& final(self).covered() <= len
                &&& old(self).covered() < goal ==> final(self).covered() < goal + CHUNK_SIZE
            }),
    {
        let len = self.reader.data_len();
        let goal: usize = if (len as u64) < target {
            len
        } else {
            target as usize
        };
        if self.reader.bytes_read() >= goal {
            return;
        }
        while self.reader.bytes_read() < goal
            invariant
                self.wf(),
                self.data_seq() == old(self).data_seq(),
                goal <= self.data_seq().len(),
                self.covered() >= old(self).covered(),
                self.covered() < goal + CHUNK_SIZE,
            decreases self.data_seq().len() - self.covered(),
        {
            self.grow_one();
        }
    }

    /// The current coverage and the digest at the latest checkpoint (empty
    /// before any chunk has been read).
    pub fn snapshot(&self) -> (r: (u64, Vec<u8>))
        requires
            self.wf(),
        ensures
            r.0 == self.covered(),
            self.spec_hashes().len() == 0 ==> r.1@ == Seq::<u8>::empty(),
            self.spec_hashes().len() > 0 ==> r.1@ == self.spec_hashes().last(),
    {
        let cov = self.reader.bytes_read() as u64;
        if self.hashes.len() == 0 {
            (cov, Vec::new())
        } else {
            (cov, copy_bytes(&self.hashes[self.hashes.len() - 1]))
        }
    }
}

} // verus!
