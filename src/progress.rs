//! Progress of a batch run, kept as one value: rows processed, points
//! created, errors met, and when the run started and ended. Times are
//! milliseconds on a monotonic clock that the caller reads.
use vstd::prelude::*;
use vstd::math::min;

verus! {

/// What became of one row of a batch.
#[derive(Clone, Debug)]
pub enum RowOutcome {
    /// The row's polygon got this many points.
    Points(usize),
    /// The row gave no points, for this reason.
    Failed(String),
}

#[derive(Clone, Debug)]
pub struct VegetationProcessingState {
    pub processed_rows: usize,
    pub total_rows: usize,
    pub errors: Vec<String>,
    pub created_items: usize,
    /// When the run started, in milliseconds.
    pub start_time: Option<u64>,
    /// When the run ended, in milliseconds.
    pub end_time: Option<u64>,
}

/// Whole seconds from `from` to `to`, zero if `to` comes first.
pub open spec fn seconds_between(from: u64, to: u64) -> int {
    if to >= from {
        (to - from) / 1000
    } else {
        0
    }
}

impl VegetationProcessingState {
    /// A state before any run: all counts zero, no errors, no times.
    pub open spec fn is_blank(&self) -> bool {
        &&& self.processed_rows == 0
        &&& self.total_rows == 0
        &&& self.created_items == 0
        &&& self.errors@.len() == 0
        &&& self.start_time is None
        &&& self.end_time is None
    }

    pub fn new() -> (s: Self)
        ensures
            s.is_blank(),
    {
        VegetationProcessingState {
            processed_rows: 0,
            total_rows: 0,
            errors: Vec::new(),
            created_items: 0,
            start_time: None,
            end_time: None,
        }
    }

    /// Starts a run over `total_rows` rows at time `now`.
    pub fn initialize(&mut self, total_rows: usize, now: u64)
        ensures
            final(self).processed_rows == 0,
            final(self).total_rows == total_rows,
            final(self).created_items == 0,
            final(self).errors@.len() == 0,
            final(self).start_time == Some(now),
            final(self).end_time is None,
    {
        self.processed_rows = 0;
        self.total_rows = total_rows;
        self.created_items = 0;
        self.errors = Vec::new();
        self.start_time = Some(now);
        self.end_time = None;
    }

    pub fn update_processed_rows(&mut self, count: usize)
        ensures
            *final(self) == (VegetationProcessingState { processed_rows: count, ..*old(self) }),
    {
        self.processed_rows = count;
    }

    pub fn update_created_items(&mut self, count: usize)
        ensures
            *final(self) == (VegetationProcessingState { created_items: count, ..*old(self) }),
    {
        self.created_items = count;
    }

    /// Records an error message after the earlier ones.
    pub fn add_error(&mut self, error: String)
        ensures
            final(self).errors@ == old(self).errors@.push(error),
            final(self).processed_rows == old(self).processed_rows,
            final(self).total_rows == old(self).total_rows,
            final(self).created_items == old(self).created_items,
            final(self).start_time == old(self).start_time,
            final(self).end_time == old(self).end_time,
    {
        self.errors.push(error);
    }

    /// Ends the run at time `now`.
    pub fn set_finished(&mut self, now: u64)
        ensures
            *final(self) == (VegetationProcessingState { end_time: Some(now), ..*old(self) }),
    {
        self.end_time = Some(now);
    }

    /// Books one processed row: its points are added to the created items
    /// or its error is recorded, and the processed rows go up by one (both
    /// counts stop at `usize::MAX`).
    pub fn record_row(&mut self, outcome: RowOutcome)
        ensures
            final(self).processed_rows == min(old(self).processed_rows + 1, usize::MAX as int),
            final(self).total_rows == old(self).total_rows,
            final(self).start_time == old(self).start_time,
            final(self).end_time == old(self).end_time,
            match outcome {
                RowOutcome::Points(n) => final(self).created_items == min(
                    old(self).created_items + n,
                    usize::MAX as int,
                ) && final(self).errors@ == old(self).errors@,
                RowOutcome::Failed(e) => final(self).created_items == old(self).created_items
                    && final(self).errors@ == old(self).errors@.push(e),
            },
    {
        match outcome {
            RowOutcome::Points(n) => {
                self.created_items = self.created_items.saturating_add(n);
            },
            RowOutcome::Failed(e) => {
                self.errors.push(e);
            },
        }
        self.processed_rows = self.processed_rows.saturating_add(1);
    }

    /// The run has ended, or every row has been processed.
    pub fn is_finished(&self) -> (r: bool)
        ensures
            r == (self.end_time is Some || (self.total_rows > 0 && self.processed_rows
                >= self.total_rows)),
    {
        self.end_time.is_some() || (self.total_rows > 0 && self.processed_rows >= self.total_rows)
    }

    /// Whole seconds since the start, up to the end or else up to `now`.
    pub fn elapsed_seconds(&self, now: u64) -> (r: Option<u64>)
        ensures
            match self.start_time {
                None => r is None,
                Some(start) => r == Some(
                    seconds_between(
                        start,
                        match self.end_time {
                            Some(end) => end,
                            None => now,
                        },
                    ) as u64,
                ),
            },
    {
        match self.start_time {
            None => None,
            Some(start) => {
                let end = match self.end_time {
                    Some(e) => e,
                    None => now,
                };
                if end >= start {
                    Some((end - start) / 1000)
                } else {
                    Some(0)
                }
            },
        }
    }

    /// Seconds the remaining rows should take at the rate seen so far
    /// (rows left × time spent ÷ rows done), rounded down and capped at
    /// `u64::MAX`; only while a started run has done some rows and has rows
    /// left.
    pub fn estimated_remaining_seconds(&self, now: u64) -> (r: Option<u64>)
        ensures
            match self.start_time {
                Some(start) => if self.processed_rows > 0 && self.total_rows > self.processed_rows
                    && self.end_time is None {
                    r matches Some(v) && v == min(
                        (self.total_rows - self.processed_rows) * (if now >= start {
                            now - start
                        } else {
                            0
                        }) / (self.processed_rows * 1000),
                        u64::MAX as int,
                    )
                } else {
                    r is None
                },
                None => r is None,
            },
    {
        match self.start_time {
            Some(start) => {
                if self.processed_rows > 0 && self.total_rows > self.processed_rows
                    && self.end_time.is_none() {
                    let elapsed: u128 = if now >= start {
                        (now - start) as u128
                    } else {
                        0
                    };
                    let remaining = (self.total_rows - self.processed_rows) as u128;
                    assert(remaining * elapsed <= 0xffff_ffff_ffff_ffff * 0xffff_ffff_ffff_ffffu128)
                        by (nonlinear_arith)
                        requires
                            remaining <= 0xffff_ffff_ffff_ffff,
                            elapsed <= 0xffff_ffff_ffff_ffff,
                    ;
                    let estimate = remaining * elapsed / (self.processed_rows as u128 * 1000);
                    if estimate > u64::MAX as u128 {
                        Some(u64::MAX)
                    } else {
                        Some(estimate as u64)
                    }
                } else {
                    None
                }
            },
            None => None,
        }
    }
}

impl Default for VegetationProcessingState {
    fn default() -> (s: Self)
        ensures
            s.is_blank(),
    {
        Self::new()
    }
}

} // verus!
