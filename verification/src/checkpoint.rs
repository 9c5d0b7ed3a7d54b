//! Source checkpoints: the per-source read position a publish advances,
//! and the half-open deltas that publishes carry.

use vstd::prelude::*;

verus! {

/// A monotonic advance of a source checkpoint over the half-open
/// position range `[from, to)`. A publish carrying this delta succeeds
/// only when `from` equals the current checkpoint, and moves the
/// checkpoint to `to`.
#[derive(Clone, Copy, Debug, PartialEq, Eq, Structural)]
pub struct CheckpointDelta {
    pub from: u64,
    pub to: u64,
}

impl CheckpointDelta {
    /// A delta never moves the checkpoint backwards.
    pub open spec fn wf(self) -> bool {
        self.from <= self.to
    }

    /// The number of positions the delta consumes.
    pub open spec fn span(self) -> int {
        self.to - self.from
    }
}

/// Each delta starts where the one before it ended.
pub open spec fn deltas_chained(ds: Seq<CheckpointDelta>) -> bool {
    forall|i: int| 0 < i < ds.len() ==> ds[i].from == ds[i - 1].to
}

/// The total number of positions a list of deltas consumes.
pub open spec fn deltas_span(ds: Seq<CheckpointDelta>) -> int
    decreases ds.len(),
{
    if ds.len() == 0 {
        0
    } else {
        deltas_span(ds.drop_last()) + ds.last().span()
    }
}

/// Composition of checkpoint deltas: a chain of deltas starting at some
/// position ends at that position plus the sum of the spans, exactly as a
/// single delta covering the whole range would. In particular, publishing
/// `[a, b)` and then `[b, c)` is equivalent to publishing `[a, c)`.
pub proof fn lemma_deltas_compose(ds: Seq<CheckpointDelta>)
    requires
        ds.len() > 0,
        deltas_chained(ds),
        forall|i: int| 0 <= i < ds.len() ==> (#[trigger] ds[i]).wf(),
    ensures
        ds.last().to == ds[0].from + deltas_span(ds),
        deltas_span(ds) >= 0,
    decreases ds.len(),
{
    assert(forall|i: int| 0 <= i < ds.len() ==> (#[trigger] ds[i]).span() >= 0);
    if ds.len() == 1 {
        assert(ds.last() == ds[0]);
        assert(deltas_span(ds.drop_last()) == 0);
    } else {
        let prefix = ds.drop_last();
        assert(forall|i: int| 0 <= i < prefix.len() ==> #[trigger] prefix[i] == ds[i]);
        assert(deltas_chained(prefix));
        lemma_deltas_compose(prefix);
        assert(ds.last().from == ds[ds.len() - 2].to);
        assert(prefix.last() == ds[ds.len() - 2]);
    }
}

} // verus!
