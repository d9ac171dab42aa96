//! The generation logs: numbered, append-only byte logs.
//!
//! A sealed generation is read through a [`LogReader`]; the active one grows
//! through a [`LogWriter`]. What has to reach the disk is described by
//! [`FileOp`] values, which the caller performs in order.
use vstd::prelude::*;

verus! {

/// A sealed generation: its id and its bytes.
#[derive(Debug)]
pub struct LogReader {
    pub id: u64,
    pub data: Vec<u8>,
}

impl LogReader {
    pub fn new(id: u64, data: Vec<u8>) -> (r: LogReader)
        ensures
            r.id == id,
            r.data@ == data@,
    {
        LogReader { id, data }
    }

    /// The `len` bytes at `offset`, or `None` where they do not lie within the log.
    pub fn read_at(&self, offset: usize, len: usize) -> (r: Option<Vec<u8>>)
        ensures
            r is Some <==> offset + len <= self.data@.len(),
            r matches Some(b) ==> b@ == self.data@.subrange(offset as int, offset + len),
    {
        let n = self.data.len();
        if offset > n || len > n - offset {
            return None;
        }
        let mut out: Vec<u8> = Vec::new();
        let mut i: usize = 0;
        while i < len
            invariant
                i <= len,
                offset + len <= self.data@.len(),
                n == self.data@.len(),
                out@ == self.data@.subrange(offset as int, offset + i),
            decreases len - i,
        {
            out.push(self.data[offset + i]);
            proof {
                assert(out@ =~= self.data@.subrange(offset as int, offset + i + 1));
            }
            i += 1;
        }
        Some(out)
    }
}

/// The active generation: bytes are only ever appended to it.
#[derive(Debug)]
pub struct LogWriter {
    pub id: u64,
    pub data: Vec<u8>,
}

impl LogWriter {
    /// An empty active generation.
    pub fn new(id: u64) -> (r: LogWriter)
        ensures
            r.id == id,
            r.data@.len() == 0,
    {
        LogWriter { id, data: Vec::new() }
    }

    /// The position of the next append: the length of the log.
    pub fn pos(&self) -> (r: usize)
        ensures
            r == self.data@.len(),
    {
        self.data.len()
    }

    /// Appends `bytes`.
    pub fn write(&mut self, bytes: &[u8])
        ensures
            final(self).id == old(self).id,
            final(self).data@ == old(self).data@ + bytes@,
    {
        self.data.extend_from_slice(bytes);
    }
}

/// A change to the files of the log directory.
#[derive(Debug)]
pub enum FileOp {
    /// Append the bytes to the generation's file, creating it if absent, and
    /// flush them to disk.
    Append { gen: u64, bytes: Vec<u8> },
    /// Delete the generation's file.
    Retire { gen: u64 },
}

} // verus!
