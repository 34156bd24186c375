//! The progress of a download.

use vstd::prelude::*;

verus! {

/// A download that is read piece by piece.
#[derive(Debug)]
pub struct Download {
    total_size: u64,
    downloaded: u64,
}

impl Download {
    /// The announced size, or 0 where the server announced none.
    pub closed spec fn total(self) -> u64 {
        self.total_size
    }

    /// The number of bytes read so far.
    pub closed spec fn position(self) -> u64 {
        self.downloaded
    }

    /// Start a download of the announced size.
    pub fn new(content_length: Option<u64>) -> (r: Self)
        ensures
            r.total() == match content_length {
                Some(n) => n,
                None => 0,
            },
            r.position() == 0,
    {
        let total_size: u64 = match content_length {
            Some(n) => n,
            None => 0,
        };
        Download { total_size, downloaded: 0 }
    }

    /// The announced size, or 0 where the server announced none.
    pub fn total_size(&self) -> (r: u64)
        ensures
            r == self.total(),
    {
        self.total_size
    }

    /// The number of bytes read so far.
    pub fn downloaded(&self) -> (r: u64)
        ensures
            r == self.position(),
    {
        self.downloaded
    }

    /// A read gave `n` bytes. Returns the position to show after they are
    /// written, or `None` at the end of the data, where a read gives no bytes.
    pub fn on_read(&mut self, n: usize) -> (r: Option<u64>)
        requires
            old(self).position() + n <= u64::MAX,
        ensures
            final(self).total() == old(self).total(),
            final(self).position() == old(self).position() + n,
            r == if n == 0 {
                None
            } else {
                Some(final(self).position())
            },
    {
        if n == 0 {
            return None;
        }
        self.downloaded = self.downloaded + n as u64;
        Some(self.downloaded)
    }
}

} // verus!
