use vstd::prelude::*;

verus! {

/// What a caller supplies to download a file.
pub struct DownloadArgs {
    /// Address of the file to download.
    pub url: String,
}

/// The smaller of two amounts.
pub open spec fn min_int(a: int, b: int) -> int {
    if a <= b {
        a
    } else {
        b
    }
}

/// Progress of a download whose announced size is `total` bytes.
pub struct Progress {
    pub downloaded: u64,
    pub total: u64,
}

impl Progress {
    /// The progress of a download that has not started.
    pub fn new(total: u64) -> (p: Progress)
        ensures
            p.downloaded == 0,
            p.total == total,
    {
        Progress { downloaded: 0, total }
    }

    /// Counts a received chunk of `chunk_len` bytes; the position never
    /// passes the announced size. Returns the new position.
    pub fn advance(&mut self, chunk_len: u64) -> (r: u64)
        requires
            old(self).downloaded <= old(self).total,
        ensures
            final(self).total == old(self).total,
            final(self).downloaded == min_int(
                old(self).downloaded + chunk_len,
                old(self).total as int,
            ),
            r == final(self).downloaded,
            final(self).downloaded <= final(self).total,
    {
        if chunk_len >= self.total - self.downloaded {
            self.downloaded = self.total;
        } else {
            self.downloaded = self.downloaded + chunk_len;
        }
        self.downloaded
    }
}

} // verus!
