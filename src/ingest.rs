use vstd::prelude::*;

verus! {

/// How far a run has come since its last write to disk.
pub struct IngestState {
    /// Records accepted since the last write.
    pub since_flush: usize,
}

impl IngestState {
    /// The state at the start of a run.
    pub fn new() -> (r: IngestState)
        ensures
            r.since_flush == 0,
    {
        IngestState { since_flush: 0 }
    }

    /// Takes note of one input line, `accepted` where it decoded to a record
    /// that was walked, and says whether every table is to be written out
    /// now: where a buffer size is set and that many records were accepted
    /// since the last write. Writing starts a new count.
    pub fn after_line(&mut self, accepted: bool, json_buf_size: Option<usize>) -> (flush: bool)
        ensures
            ({
                let count = if accepted && old(self).since_flush < usize::MAX {
                    old(self).since_flush + 1
                } else {
                    old(self).since_flush as int
                };
                &&& flush == (json_buf_size matches Some(n) && count >= n)
                &&& final(self).since_flush == if flush {
                    0
                } else {
                    count
                }
            }),
    {
        if accepted && self.since_flush < usize::MAX {
            self.since_flush = self.since_flush + 1;
        }
        let flush = match json_buf_size {
            Some(n) => self.since_flush >= n,
            None => false,
        };
        if flush {
            self.since_flush = 0;
        }
        flush
    }
}

} // verus!
