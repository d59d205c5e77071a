//! Compaction strategy: decides, from a snapshot of the per-level table
//! sets, which tables to merge next and where the result goes. The
//! decision is a pure function of the snapshot; running the merge and
//! swapping the table set belong to the surrounding engine.

use vstd::prelude::*;

verus! {

/// Table ids per level: the level-0 run plus each sorted level below it.
pub struct LevelSnapshot {
    /// Ids of the level-0 tables.
    pub l0_sstables: Vec<usize>,
    /// Ids of the tables of level `i + 1`, for each `i`.
    pub levels: Vec<Vec<usize>>,
}

impl LevelSnapshot {
    /// Number of tables in level `i`.
    pub open spec fn level_size(self, i: int) -> int {
        if i == 0 {
            self.l0_sstables@.len() as int
        } else {
            self.levels@[i - 1]@.len() as int
        }
    }

    /// Table ids of level `i`.
    pub open spec fn level_ids(self, i: int) -> Seq<usize> {
        if i == 0 {
            self.l0_sstables@
        } else {
            self.levels@[i - 1]@
        }
    }
}

/// Tunables of the simple leveled strategy.
pub struct SimpleLeveledCompactionOptions {
    /// A level is compacted into the next when the next holds fewer than
    /// this percentage of the level's table count.
    pub size_ratio_percent: usize,
    /// Level 0 is compacted once it holds this many tables.
    pub level0_file_num_compaction_trigger: usize,
    /// Number of levels below level 0.
    pub max_levels: usize,
}

/// One merge to run: the source level's tables, the destination level's
/// tables, and where the merged output goes.
pub struct SimpleLeveledCompactionTask {
    /// Source level; `None` names level 0.
    pub upper_level: Option<usize>,
    /// Ids of the source level's tables.
    pub upper_level_sst_ids: Vec<usize>,
    /// Destination level.
    pub lower_level: usize,
    /// Ids of the destination level's tables.
    pub lower_level_sst_ids: Vec<usize>,
    /// Whether the destination is the lowest level.
    pub is_lower_level_bottom_level: bool,
}

/// Decides compactions for the simple leveled strategy.
pub struct SimpleLeveledCompactionController {
    /// The strategy's tunables.
    pub options: SimpleLeveledCompactionOptions,
}

/// Level `i` must be compacted into level `i + 1`: level 0 by file
/// count, every level by the size ratio — the next level holds fewer
/// than `size_ratio_percent` percent as many tables.
pub open spec fn needs_compaction(
    opts: SimpleLeveledCompactionOptions,
    s: LevelSnapshot,
    i: int,
) -> bool {
    &&& (i == 0 ==> s.level_size(0) >= opts.level0_file_num_compaction_trigger)
    &&& 100 * s.level_size(i + 1) < opts.size_ratio_percent * s.level_size(i)
}

/// The task the controller emits for source level `i`.
pub open spec fn task_for(
    opts: SimpleLeveledCompactionOptions,
    s: LevelSnapshot,
    t: SimpleLeveledCompactionTask,
    i: int,
) -> bool {
    &&& t.upper_level == if i == 0 {
        Option::<usize>::None
    } else {
        Some(i as usize)
    }
    &&& t.upper_level_sst_ids@ == s.level_ids(i)
    &&& t.lower_level == i + 1
    &&& t.lower_level_sst_ids@ == s.level_ids(i + 1)
    &&& t.is_lower_level_bottom_level == (i + 1 == opts.max_levels)
}

/// Copies a level's table ids.
fn copy_ids(v: &Vec<usize>) -> (r: Vec<usize>)
    ensures
        r@ == v@,
{
    let mut r: Vec<usize> = Vec::new();
    let mut i: usize = 0;
    while i < v.len()
        invariant
            i <= v@.len(),
            r@ == v@.take(i as int),
        decreases v@.len() - i,
    {
        r.push(v[i]);
        proof {
            assert(r@ =~= v@.take(i as int + 1));
        }
        i = i + 1;
    }
    proof {
        assert(v@.take(v@.len() as int) =~= v@);
    }
    r
}

impl SimpleLeveledCompactionController {
    /// Creates a controller with the given tunables.
    pub fn new(options: SimpleLeveledCompactionOptions) -> (r: SimpleLeveledCompactionController)
        ensures
            r.options == options,
    {
        SimpleLeveledCompactionController { options }
    }

    /// Picks the topmost level that needs compaction and names the merge
    /// of that level into the one below it, or nothing when every level
    /// is within bounds.
    pub fn generate_compaction_task(&self, snapshot: &LevelSnapshot) -> (r: Option<
        SimpleLeveledCompactionTask,
    >)
        requires
            snapshot.levels@.len() == self.options.max_levels,
            self.options.size_ratio_percent <= 0xffffffff,
            snapshot.l0_sstables@.len() <= 0xffffffff,
            forall|i: int|
                0 <= i < snapshot.levels@.len() ==> (#[trigger] snapshot.levels@[i])@.len()
                    <= 0xffffffff,
        ensures
            match r {
                Some(t) => {
                    let i = t.lower_level - 1;
                    &&& 1 <= t.lower_level <= self.options.max_levels
                    &&& needs_compaction(self.options, *snapshot, i)
                    &&& forall|j: int|
                        0 <= j < i ==> !needs_compaction(self.options, *snapshot, j)
                    &&& task_for(self.options, *snapshot, t, i)
                },
                None => forall|j: int|
                    0 <= j < self.options.max_levels ==> !needs_compaction(
                        self.options,
                        *snapshot,
                        j,
                    ),
            },
    {
        let max_levels = self.options.max_levels;
        let mut i: usize = 0;
        while i < max_levels
            invariant
                i <= max_levels == self.options.max_levels,
                snapshot.levels@.len() == max_levels,
                self.options.size_ratio_percent <= 0xffffffff,
                snapshot.l0_sstables@.len() <= 0xffffffff,
                forall|k: int|
                    0 <= k < snapshot.levels@.len() ==> (#[trigger] snapshot.levels@[k])@.len()
                        <= 0xffffffff,
                forall|j: int| 0 <= j < i ==> !needs_compaction(self.options, *snapshot, j),
            decreases max_levels - i,
        {
            let upper_size = if i == 0 {
                self.l0_trigger_size(snapshot)
            } else {
                snapshot.levels[i - 1].len()
            };
            let lower_size = snapshot.levels[i].len();
            proof {
                assert(upper_size <= 0xffffffff);
                assert((self.options.size_ratio_percent as int) * (upper_size as int)
                    <= 0xffffffff * 0xffffffff) by (nonlinear_arith)
                    requires
                        0 <= self.options.size_ratio_percent as int <= 0xffffffff,
                        0 <= upper_size as int <= 0xffffffff,
                ;
            }
            if 100 * (lower_size as u64) < (self.options.size_ratio_percent as u64) * (
            upper_size as u64) {
                proof {
                    if i == 0 && snapshot.l0_sstables@.len()
                        < self.options.level0_file_num_compaction_trigger {
                        assert(upper_size == 0);
                        assert((self.options.size_ratio_percent as int) * 0 == 0) by (nonlinear_arith);
                        assert(false);
                    }
                    assert(needs_compaction(self.options, *snapshot, i as int));
                }
                let upper_ids = if i == 0 {
                    copy_ids(&snapshot.l0_sstables)
                } else {
                    copy_ids(&snapshot.levels[i - 1])
                };
                let lower_ids = copy_ids(&snapshot.levels[i]);
                let t = SimpleLeveledCompactionTask {
                    upper_level: if i == 0 {
                        None
                    } else {
                        Some(i)
                    },
                    upper_level_sst_ids: upper_ids,
                    lower_level: i + 1,
                    lower_level_sst_ids: lower_ids,
                    is_lower_level_bottom_level: i + 1 == max_levels,
                };
                return Some(t);
            }
            i = i + 1;
        }
        None
    }

    /// Level 0's table count, or zero while it is below the compaction
    /// trigger, so that the ratio test never fires for a quiet level 0.
    fn l0_trigger_size(&self, snapshot: &LevelSnapshot) -> (r: usize)
        ensures
            r == if snapshot.l0_sstables@.len()
                >= self.options.level0_file_num_compaction_trigger {
                snapshot.l0_sstables@.len() as int
            } else {
                0
            },
    {
        if snapshot.l0_sstables.len() >= self.options.level0_file_num_compaction_trigger {
            snapshot.l0_sstables.len()
        } else {
            0
        }
    }
}

/// The interchangeable compaction strategies, dispatched through one
/// decision signature.
pub enum CompactionController {
    /// The simple leveled strategy.
    Simple(SimpleLeveledCompactionController),
    /// Never compact.
    NoCompaction,
}

impl CompactionController {
    /// Decides the next merge under whichever strategy is configured.
    pub fn generate_compaction_task(&self, snapshot: &LevelSnapshot) -> (r: Option<
        SimpleLeveledCompactionTask,
    >)
        requires
            self matches CompactionController::Simple(c) ==> {
                &&& snapshot.levels@.len() == c.options.max_levels
                &&& c.options.size_ratio_percent <= 0xffffffff
                &&& snapshot.l0_sstables@.len() <= 0xffffffff
                &&& forall|i: int|
                    0 <= i < snapshot.levels@.len() ==> (#[trigger] snapshot.levels@[i])@.len()
                        <= 0xffffffff
            },
        ensures
            self is NoCompaction ==> r is None,
            match *self {
                CompactionController::Simple(c) => match r {
                    Some(t) => {
                        let i = t.lower_level - 1;
                        &&& 1 <= t.lower_level <= c.options.max_levels
                        &&& needs_compaction(c.options, *snapshot, i)
                        &&& forall|j: int|
                            0 <= j < i ==> !needs_compaction(c.options, *snapshot, j)
                        &&& task_for(c.options, *snapshot, t, i)
                    },
                    None => forall|j: int|
                        0 <= j < c.options.max_levels ==> !needs_compaction(
                            c.options,
                            *snapshot,
                            j,
                        ),
                },
                CompactionController::NoCompaction => r is None,
            },
    {
        match self {
            CompactionController::Simple(c) => c.generate_compaction_task(snapshot),
            CompactionController::NoCompaction => None,
        }
    }
}

} // verus!
