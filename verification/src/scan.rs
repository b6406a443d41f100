use vstd::prelude::*;

verus! {

/// First block height ever scanned when no checkpoint exists yet.
pub const ORIGIN_HEIGHT: u64 = 8397604;

/// The next block height that the scanner has to process; the sole state
/// that survives restarts.
pub struct ScanCursor {
    pub height: u64,
}

/// What the scanner loop does next.
#[derive(Clone, Copy, Debug, PartialEq, Eq, Structural)]
pub enum ScanAction {
    /// Fetch and process the block at this height.
    Fetch(u64),
    /// Caught up: query the chain head again.
    RefreshHead,
}

impl ScanCursor {
    /// Cursor for a first run, before any checkpoint was written.
    pub fn at_origin() -> (c: ScanCursor)
        ensures
            c.height == ORIGIN_HEIGHT,
    {
        ScanCursor { height: ORIGIN_HEIGHT }
    }

    /// Cursor restored from a persisted checkpoint, or the origin when no
    /// checkpoint exists yet.
    pub fn restore(saved: Option<u64>) -> (c: ScanCursor)
        ensures
            match saved {
                Some(h) => c.height == h,
                None => c.height == ORIGIN_HEIGHT,
            },
    {
        match saved {
            Some(h) => ScanCursor { height: h },
            None => ScanCursor { height: ORIGIN_HEIGHT },
        }
    }

    /// While the cursor has not passed the head, the block at the cursor is
    /// processed next; blocks are taken strictly in ascending height order.
    pub fn next_action(&self, head: u64) -> (a: ScanAction)
        ensures
            self.height <= head ==> a == ScanAction::Fetch(self.height),
            self.height > head ==> a == ScanAction::RefreshHead,
    {
        if self.height <= head {
            ScanAction::Fetch(self.height)
        } else {
            ScanAction::RefreshHead
        }
    }

    /// Records that the block at the cursor was fully processed and emitted:
    /// the height to persist is the one just superseded, so a crash and
    /// restart may repeat that one block but can never skip one.
    pub fn complete_block(&mut self, block_height: u64) -> (persist: u64)
        requires
            old(self).height == block_height,
            block_height < u64::MAX,
        ensures
            persist == old(self).height,
            final(self).height == block_height + 1,
            persist + 1 == final(self).height,
    {
        let persist = self.height;
        self.height = block_height + 1;
        persist
    }
}

proof fn lemma_heights_arithmetic(heights: Seq<int>, origin: int, i: int)
    requires
        heights.len() >= 1,
        heights[0] == origin,
        forall|j: int| 0 <= j < heights.len() - 1 ==> heights[j + 1] == #[trigger] heights[j] + 1,
        0 <= i < heights.len(),
    ensures
        heights[i] == origin + i,
    decreases i,
{
    if i > 0 {
        lemma_heights_arithmetic(heights, origin, i - 1);
    }
}

/// Monotonic progress: a run that starts at the origin, always processes the
/// block at its cursor, and advances the cursor by one after each block,
/// visits exactly the contiguous heights from the origin on.  The height
/// persisted at each step (the one just processed) never decreases, and no
/// height between the origin and the last processed block is ever skipped.
pub proof fn lemma_monotonic_progress(heights: Seq<int>, origin: int)
    requires
        heights.len() >= 1,
        heights[0] == origin,
        forall|j: int| 0 <= j < heights.len() - 1 ==> heights[j + 1] == #[trigger] heights[j] + 1,
    ensures
        forall|i: int| 0 <= i < heights.len() ==> heights[i] == origin + i,
        forall|i: int, j: int| 0 <= i <= j < heights.len() ==> heights[i] <= heights[j],
        forall|h: int| origin <= h < origin + heights.len() ==> heights.contains(h),
{
    assert forall|i: int| 0 <= i < heights.len() implies heights[i] == origin + i by {
        lemma_heights_arithmetic(heights, origin, i);
    }
    assert forall|h: int| origin <= h < origin + heights.len() implies heights.contains(h) by {
        assert(heights[h - origin] == h);
    }
}

} // verus!
