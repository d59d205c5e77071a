use mini_lsm::compaction::CompactionController;
use mini_lsm::compaction::LevelSnapshot;
use mini_lsm::compaction::SimpleLeveledCompactionController;
use mini_lsm::compaction::SimpleLeveledCompactionOptions;

fn controller() -> SimpleLeveledCompactionController {
    SimpleLeveledCompactionController::new(SimpleLeveledCompactionOptions {
        size_ratio_percent: 200,
        level0_file_num_compaction_trigger: 2,
        max_levels: 3,
    })
}

#[test]
fn test_l0_trigger_by_file_count() {
    // Two level-0 files reach the trigger, and level 1 is empty, so the
    // ratio fires: flush level 0 into level 1.
    let snapshot = LevelSnapshot {
        l0_sstables: vec![1, 2],
        levels: vec![vec![], vec![], vec![]],
    };
    let task = controller().generate_compaction_task(&snapshot).unwrap();
    assert_eq!(task.upper_level, None);
    assert_eq!(task.upper_level_sst_ids, vec![1, 2]);
    assert_eq!(task.lower_level, 1);
    assert_eq!(task.lower_level_sst_ids, Vec::<usize>::new());
    assert!(!task.is_lower_level_bottom_level);
}

#[test]
fn test_l0_below_trigger_is_quiet() {
    let snapshot = LevelSnapshot {
        l0_sstables: vec![1],
        levels: vec![vec![], vec![], vec![]],
    };
    assert!(controller().generate_compaction_task(&snapshot).is_none());
}

#[test]
fn test_size_ratio_triggers_lower_level() {
    // Level 1 holds four tables and level 2 only one: 1/4 is below the
    // 200 percent bound, so level 1 compacts into level 2.
    let snapshot = LevelSnapshot {
        l0_sstables: vec![1],
        levels: vec![vec![10, 11, 12, 13], vec![20], vec![30, 31, 32, 33, 34, 35, 36, 37]],
    };
    let task = controller().generate_compaction_task(&snapshot).unwrap();
    assert_eq!(task.upper_level, Some(1));
    assert_eq!(task.upper_level_sst_ids, vec![10, 11, 12, 13]);
    assert_eq!(task.lower_level, 2);
    assert_eq!(task.lower_level_sst_ids, vec![20]);
    assert!(!task.is_lower_level_bottom_level);
}

#[test]
fn test_bottom_level_marked() {
    let snapshot = LevelSnapshot {
        l0_sstables: vec![],
        levels: vec![vec![], vec![20, 21], vec![]],
    };
    let task = controller().generate_compaction_task(&snapshot).unwrap();
    assert_eq!(task.upper_level, Some(2));
    assert_eq!(task.lower_level, 3);
    assert!(task.is_lower_level_bottom_level);
}

#[test]
fn test_balanced_levels_are_quiet() {
    // Every lower level holds at least double its upper level: nothing
    // to do.
    let snapshot = LevelSnapshot {
        l0_sstables: vec![1],
        levels: vec![vec![10, 11], vec![20, 21, 22, 23], vec![30, 31, 32, 33, 34, 35, 36, 37]],
    };
    assert!(controller().generate_compaction_task(&snapshot).is_none());
}

#[test]
fn test_no_compaction_strategy() {
    let snapshot = LevelSnapshot {
        l0_sstables: vec![1, 2, 3, 4],
        levels: vec![vec![], vec![], vec![]],
    };
    let c = CompactionController::NoCompaction;
    assert!(c.generate_compaction_task(&snapshot).is_none());
}
