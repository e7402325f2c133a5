//! The chunk builder: gathers records into a pool of bounded byte size and
//! hands over each full pool as the next chunk to sort.
use crate::record::{models, RawRecord};
use crate::segment::text_of;
use vstd::prelude::*;

verus! {

/// A pool of records being gathered, its byte size, the byte budget of a
/// chunk, and the id that the next chunk handed over gets.
pub struct ChunkBuilder {
    pub pool: Vec<RawRecord>,
    pub pool_size: usize,
    pub chunk_size: usize,
    pub next_chunk: usize,
}

impl ChunkBuilder {
    /// `pool_size` is the byte size of the pool.
    pub open spec fn wf(&self) -> bool {
        self.pool_size == text_of(models(self.pool@)).len()
    }

    /// An empty builder for chunks of at most `chunk_size` bytes.
    pub fn new(chunk_size: usize) -> (b: ChunkBuilder)
        ensures
            b.wf(),
            b.pool@.len() == 0,
            b.chunk_size == chunk_size,
            b.next_chunk == 0,
    {
        let b = ChunkBuilder { pool: Vec::new(), pool_size: 0, chunk_size, next_chunk: 0 };
        assert(models(b.pool@) =~= Seq::empty());
        b
    }

    /// Adds one record. When the pool's bytes plus the record's would
    /// exceed `chunk_size`, the pool gathered so far (if not empty) is first
    /// handed back as a chunk, with its id, and the record starts a new pool.
    pub fn push(&mut self, record: RawRecord) -> (r: Option<(usize, Vec<RawRecord>)>)
        requires
            old(self).wf(),
            old(self).next_chunk < usize::MAX,
        ensures
            final(self).wf(),
            final(self).chunk_size == old(self).chunk_size,
            ({
                let flush = old(self).pool@.len() > 0 && old(self).pool_size + record.raw_record@.len()
                    > old(self).chunk_size;
                if flush {
                    &&& r matches Some((id, chunk)) && id == old(self).next_chunk && chunk@ == old(
                        self,
                    ).pool@
                    &&& final(self).pool@ == seq![record]
                    &&& final(self).next_chunk == old(self).next_chunk + 1
                } else {
                    &&& r is None
                    &&& final(self).pool@ == old(self).pool@.push(record)
                    &&& final(self).next_chunk == old(self).next_chunk
                }
            }),
    {
        let len = record.raw_record.len();
        let ghost r = record;
        let mut out: Option<(usize, Vec<RawRecord>)> = None;
        if self.pool.len() > 0 && (len > self.chunk_size || self.pool_size > self.chunk_size - len) {
            let mut full: Vec<RawRecord> = Vec::new();
            std::mem::swap(&mut full, &mut self.pool);
            out = Some((self.next_chunk, full));
            self.next_chunk = self.next_chunk + 1;
            self.pool_size = 0;
            assert(models(self.pool@) =~= Seq::empty());
        }
        let ghost before = self.pool@;
        proof {
            assert(self.pool_size + len <= usize::MAX) by {
                if self.pool_size > 0 {
                    assert(self.pool_size + len <= self.chunk_size);
                }
            }
        }
        self.pool.push(record);
        self.pool_size = self.pool_size + len;
        proof {
            assert(models(self.pool@).drop_last() =~= models(before));
            assert(models(self.pool@).last() == r@);
            assert(text_of(models(self.pool@)) == text_of(models(before)) + r.raw_record@);
        }
        out
    }

    /// Hands back the last pool as a chunk, with its id, if it is not empty.
    pub fn finish(self) -> (r: Option<(usize, Vec<RawRecord>)>)
        ensures
            self.pool@.len() == 0 ==> r is None,
            self.pool@.len() > 0 ==> (r matches Some((id, chunk)) && id == self.next_chunk && chunk@
                == self.pool@),
    {
        if self.pool.len() == 0 {
            None
        } else {
            Some((self.next_chunk, self.pool))
        }
    }
}

} // verus!
