//! The sink that receives the bytes of one member, up to its unpacked size.

use vstd::prelude::*;
use vstd::slice::slice_subrange;
use crate::error::RarError;
use crate::file_block::{FileBlock, FileBlockView};

verus! {

/// A sink for the content of one member. It holds what was written to it
/// and accepts no more bytes than the member's unpacked size.
pub struct FileWriter {
    file: FileBlock,
    data: Vec<u8>,
}

/// The smaller of two lengths.
pub open spec fn min_len(a: int, b: int) -> int {
    if a < b {
        a
    } else {
        b
    }
}

impl FileWriter {
    /// The member that the sink is for.
    pub closed spec fn member(self) -> FileBlockView {
        self.file@
    }

    /// The bytes written so far.
    pub closed spec fn written(self) -> Seq<u8> {
        self.data@
    }

    /// The number of bytes that the sink accepts in all.
    pub open spec fn capacity(self) -> nat {
        self.member().unpacked_size as nat
    }

    /// The number of bytes that the sink still accepts.
    pub open spec fn room(self) -> int {
        self.capacity() - self.written().len()
    }

    /// No more was written than the member's unpacked size.
    pub open spec fn wf(self) -> bool {
        self.room() >= 0
    }

    /// An empty sink for `file`.
    pub fn new(file: FileBlock) -> (r: FileWriter)
        ensures
            r.member() == file@,
            r.written() == Seq::<u8>::empty(),
            r.wf(),
    {
        FileWriter { file, data: Vec::new() }
    }

    /// The name of the member, as raw bytes.
    pub fn name(&self) -> (r: &Vec<u8>)
        ensures
            r@ == self.member().name,
    {
        &self.file.name
    }

    /// The bytes written so far.
    pub fn bytes(&self) -> (r: &Vec<u8>)
        ensures
            r@ == self.written(),
    {
        &self.data
    }

    /// The number of bytes written so far.
    pub fn bytes_written(&self) -> (r: u64)
        ensures
            r == self.written().len(),
    {
        self.data.len() as u64
    }

    /// Writes as much of `buf` as the sink has room for and returns the
    /// number of bytes written. A sink that is full accepts no write.
    pub fn write(&mut self, buf: &[u8]) -> (r: Result<usize, RarError>)
        requires
            old(self).wf(),
        ensures
            final(self).member() == old(self).member(),
            final(self).wf(),
            match r {
                Ok(n) => {
                    &&& old(self).room() > 0
                    &&& n == min_len(buf@.len() as int, old(self).room())
                    &&& final(self).written() == old(self).written() + buf@.take(n as int)
                },
                Err(e) => {
                    &&& e == RarError::CapacityReached
                    &&& old(self).room() == 0
                    &&& final(self).written() == old(self).written()
                },
            },
    {
        let room: u64 = self.file.unpacked_size - self.data.len() as u64;
        if room == 0 {
            return Err(RarError::CapacityReached);
        }
        let len: usize = if (buf.len() as u64) < room {
            buf.len()
        } else {
            room as usize
        };
        let part = slice_subrange(buf, 0, len);
        assert(part@ =~= buf@.take(len as int));
        self.data.extend_from_slice(part);
        Ok(len)
    }

    /// Writes all of `buf`. When the sink has less room, what fits is
    /// written and the write fails with the capacity being reached.
    pub fn write_all(&mut self, buf: &[u8]) -> (r: Result<(), RarError>)
        requires
            old(self).wf(),
        ensures
            final(self).member() == old(self).member(),
            final(self).wf(),
            final(self).written() == old(self).written() + buf@.take(
                min_len(buf@.len() as int, old(self).room()),
            ),
            match r {
                Ok(_) => buf@.len() <= old(self).room(),
                Err(e) => e == RarError::CapacityReached && buf@.len() > old(self).room(),
            },
    {
        let mut done: usize = 0;
        while done < buf.len()
            invariant
                done <= buf@.len(),
                done <= old(self).room(),
                self.wf(),
                self.member() == old(self).member(),
                self.room() == old(self).room() - done,
                self.written() == old(self).written() + buf@.take(done as int),
            decreases buf@.len() - done,
        {
            let rest = slice_subrange(buf, done, buf.len());
            match self.write(rest) {
                Ok(n) => {
                    assert(rest@.take(n as int) =~= buf@.subrange(done as int, done + n));
                    assert(buf@.take(done as int) + buf@.subrange(done as int, done + n)
                        =~= buf@.take(done + n));
                    done = done + n;
                },
                Err(e) => {
                    return Err(e);
                },
            }
        }
        assert(buf@.take(buf@.len() as int) =~= buf@);
        Ok(())
    }
}

} // verus!
