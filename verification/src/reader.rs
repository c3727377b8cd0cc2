//! Sequential, cursor-tracked access to one file's bytes.

use vstd::prelude::*;

verus! {

/// Hands out the bytes of one file in successive chunks, advancing a cursor.
/// The cursor doubles as the instrumented count of bytes ever delivered: it
/// never moves backwards, so no byte is delivered twice.
pub struct ChunkedReader {
    data: Vec<u8>,
    cursor: usize,
}

impl ChunkedReader {
    /// The full byte content behind the reader.
    pub closed spec fn data_seq(self) -> Seq<u8> {
        self.data@
    }

    /// How many leading bytes have been handed out.
    pub closed spec fn spec_cursor(self) -> int {
        self.cursor as int
    }

    pub open spec fn wf(self) -> bool {
        self.spec_cursor() <= self.data_seq().len()
    }

    pub fn new(data: Vec<u8>) -> (r: Self)
        ensures
            r.wf(),
            r.data_seq() == data@,
            r.spec_cursor() == 0,
    {
        ChunkedReader { data, cursor: 0 }
    }

    /// Count of bytes handed out so far.
    pub fn bytes_read(&self) -> (r: usize)
        ensures
            r == self.spec_cursor(),
    {
        self.cursor
    }

    /// Declared length of the underlying data.
    pub fn data_len(&self) -> (r: usize)
        ensures
            r == self.data_seq().len(),
    {
        self.data.len()
    }

    /// The next up-to-`max_len` bytes at the cursor, or `None` once the
    /// cursor has reached the end of the data.
    pub fn next_chunk(&mut self, max_len: usize) -> (r: Option<Vec<u8>>)
        requires
            old(self).wf(),
            max_len >= 1,
        ensures
            final(self).wf(),
            final(self).data_seq() == old(self).data_seq(),
            ({
                let len = old(self).data_seq().len() as int;
                let cur = old(self).spec_cursor();
                let k = if max_len as int <= len - cur {
                    max_len as int
                } else {
                    len - cur
                };
                if cur == len {
                    r is None && *final(self) == *old(self)
                } else {
                    r matches Some(chunk) && chunk@ == old(self).data_seq().subrange(cur, cur + k)
                        && final(self).spec_cursor() == cur + k
                }
            }),
    {
        if self.cursor == self.data.len() {
            return None;
        }
        let remaining = self.data.len() - self.cursor;
        let k = if max_len < remaining {
            max_len
        } else {
            remaining
        };
        let end = self.cursor + k;
        let mut chunk: Vec<u8> = Vec::new();
        let mut idx: usize = self.cursor;
        while idx < end
            invariant
                self.cursor <= idx <= end,
                end <= self.data@.len(),
                chunk@ == self.data@.subrange(self.cursor as int, idx as int),
            decreases end - idx,
        {
            let b = self.data[idx];
            chunk.push(b);
            proof {
                assert(self.data@.subrange(self.cursor as int, idx as int).push(b) =~= self
                    .data@
                    .subrange(self.cursor as int, idx + 1));
            }
            idx = idx + 1;
        }
        self.cursor = end;
        Some(chunk)
    }
}

} // verus!
