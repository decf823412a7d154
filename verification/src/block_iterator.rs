//! Reading a byte source block by block.

use vstd::prelude::*;

verus! {

/// The number of bytes in a block.
pub const BLOCK_SIZE: usize = 2;

/// A byte source in memory that is read front to back.
pub struct ByteReader {
    data: Vec<u8>,
    pos: usize,
}

impl ByteReader {
    /// The bytes that have not been read yet.
    pub closed spec fn remaining(&self) -> Seq<u8> {
        self.data@.subrange(self.pos as int, self.data@.len() as int)
    }

    /// The read position lies within the data.
    pub closed spec fn wf(&self) -> bool {
        self.pos <= self.data@.len()
    }

    /// A reader at the start of `data`.
    pub fn new(data: Vec<u8>) -> (r: ByteReader)
        ensures
            r.wf(),
            r.remaining() == data@,
    {
        let r = ByteReader { data, pos: 0 };
        proof {
            assert(r.remaining() =~= data@);
        }
        r
    }

    /// Reads into the front of `buffer` as many bytes as the buffer takes
    /// and the source still has, and returns their number. The rest of the
    /// buffer stays as it is.
    pub fn read(&mut self, buffer: &mut Vec<u8>) -> (n: usize)
        requires
            old(self).wf(),
        ensures
            final(self).wf(),
            n == if old(buffer)@.len() <= old(self).remaining().len() {
                old(buffer)@.len()
            } else {
                old(self).remaining().len()
            },
            final(buffer)@.len() == old(buffer)@.len(),
            final(buffer)@.take(n as int) == old(self).remaining().take(n as int),
            final(buffer)@.skip(n as int) == old(buffer)@.skip(n as int),
            final(self).remaining() == old(self).remaining().skip(n as int),
    {
        let left = self.data.len() - self.pos;
        let n = if buffer.len() <= left {
            buffer.len()
        } else {
            left
        };
        let ghost start = self.pos as int;
        let ghost before = buffer@;
        let mut i: usize = 0;
        while i < n
            invariant
                0 <= i <= n,
                n <= buffer@.len(),
                start + n <= self.data@.len(),
                self.data@.len() <= usize::MAX,
                self.pos == start,
                buffer@.len() == before.len(),
                forall|k: int| 0 <= k < i ==> buffer@[k] == self.data@[start + k],
                forall|k: int| i <= k < buffer@.len() ==> buffer@[k] == before[k],
            decreases n - i,
        {
            buffer[i] = self.data[self.pos + i];
            i += 1;
        }
        proof {
            assert(buffer@.take(n as int) =~= self.remaining().take(n as int));
            assert(buffer@.skip(n as int) =~= before.skip(n as int));
        }
        let ghost old_remaining = self.remaining();
        self.pos = self.pos + n;
        proof {
            assert(self.remaining() =~= old_remaining.skip(n as int));
        }
        n
    }
}

/// What one read of `n` bytes into `buffer` yields: nothing at the end of
/// the source, and else the bytes that were read as one block.
pub fn block_of_read(buffer: Vec<u8>, n: usize) -> (r: Option<Vec<u8>>)
    requires
        n <= buffer@.len(),
    ensures
        n == 0 <==> r is None,
        n > 0 ==> r->Some_0@ == buffer@.take(n as int),
{
    if n == 0 {
        None
    } else {
        let mut block = buffer;
        block.truncate(n);
        Some(block)
    }
}

/// Hands out the contents of a reader in blocks of `BLOCK_SIZE` bytes; the
/// last block may be shorter.
pub struct BlockIterator<R> {
    reader: R,
}

impl<R> BlockIterator<R> {
    /// The reader that the blocks come from.
    pub closed spec fn reader(&self) -> R {
        self.reader
    }

    /// An iterator over the blocks of `reader`.
    pub fn new(reader: R) -> (r: Self)
        ensures
            r.reader() == reader,
    {
        BlockIterator { reader }
    }

    /// Gives the reader back.
    pub fn into_inner(self) -> (r: R)
        ensures
            r == self.reader(),
    {
        self.reader
    }
}

/// An iterator over the blocks of a file, given as its byte image.
pub fn iter_file_blocks(image: Vec<u8>) -> (r: BlockIterator<ByteReader>)
    ensures
        r.reader().wf(),
        r.reader().remaining() == image@,
{
    BlockIterator::new(ByteReader::new(image))
}

impl BlockIterator<ByteReader> {
    /// The next block: the next `BLOCK_SIZE` bytes of the source, or what
    /// is left of it where that is less, and nothing at its end.
    pub fn next_block(&mut self) -> (r: Option<Vec<u8>>)
        requires
            old(self).reader().wf(),
        ensures
            final(self).reader().wf(),
            r is None <==> old(self).reader().remaining().len() == 0,
            r is None ==> final(self).reader().remaining() == old(self).reader().remaining(),
            r is Some ==> r->Some_0@.len() == if old(self).reader().remaining().len()
                < BLOCK_SIZE {
                old(self).reader().remaining().len()
            } else {
                BLOCK_SIZE as nat
            },
            r is Some ==> r->Some_0@ == old(self).reader().remaining().take(
                r->Some_0@.len() as int,
            ),
            r is Some ==> final(self).reader().remaining() == old(self).reader().remaining().skip(
                r->Some_0@.len() as int,
            ),
    {
        let mut buffer: Vec<u8> = Vec::new();
        let mut k: usize = 0;
        while k < BLOCK_SIZE
            invariant
                k <= BLOCK_SIZE,
                buffer@.len() == k,
            decreases BLOCK_SIZE - k,
        {
            buffer.push(0u8);
            k += 1;
        }
        let n = self.reader.read(&mut buffer);
        proof {
            assert(old(self).reader().remaining().skip(0) =~= old(self).reader().remaining());
        }
        block_of_read(buffer, n)
    }
}

} // verus!
