use pumpkin::identifier::Identifier;
use pumpkin::stopwatch::{
    execute_stopwatch, StopwatchError, StopwatchFeedback, StopwatchManager, StopwatchOperation,
    StopwatchesData,
};

const MILLI: u64 = 1_000_000;

#[test]
fn restored_elapsed_time_excludes_offline_time_and_can_restart() {
    let id = Identifier::parse("test:timer").unwrap();
    let data = StopwatchesData {
        stopwatches: vec![(id.to_string(), 2_500)],
        data_version: 0,
    };
    let start = 10_000 * MILLI;
    let mut manager = StopwatchManager::new(&data, start);

    let elapsed = manager.elapsed_nanos(&id, start + 30 * MILLI).unwrap();
    let seconds = elapsed as f64 / 1e9;
    assert!((2.5..2.6).contains(&seconds));
    assert!(manager.restart(&id, start + 40 * MILLI));
    assert!((manager.elapsed_nanos(&id, start + 50 * MILLI).unwrap() as f64 / 1e9) < 0.1);
}

#[test]
fn duplicate_create_fails_and_snapshot_keeps_elapsed_time() {
    let mut manager = StopwatchManager::new(&StopwatchesData::new(0), 0);
    let id = Identifier::parse("test:timer").unwrap();
    assert!(manager.create(id.copy(), 0));
    assert!(!manager.create(id.copy(), 0));

    let snapshot = manager.snapshot(4903, 1_500 * MILLI);
    assert_eq!(snapshot.data_version, 4903);
    assert!(snapshot.stopwatches.iter().any(|(name, _)| *name == id.to_string()));
    assert_eq!(snapshot.stopwatches, vec![("test:timer".to_string(), 1_500)]);
}

#[test]
fn snapshot_and_restore_keep_whole_milliseconds() {
    let mut manager = StopwatchManager::new(&StopwatchesData::new(0), 0);
    let id = Identifier::parse("a:b").unwrap();
    manager.create(id.copy(), 100);
    let snapshot = manager.snapshot(1, 100 + 1_234_567);
    let restored = StopwatchManager::new(&snapshot, 9_000_000_000);
    assert_eq!(restored.elapsed_nanos(&id, 9_000_000_000), Some(1_000_000));
}

#[test]
fn ids_are_sorted_and_removed() {
    let mut manager = StopwatchManager::new(&StopwatchesData::new(0), 0);
    for name in ["b:a", "a:z", "a:b"] {
        manager.create(Identifier::parse(name).unwrap(), 0);
    }
    let names: Vec<String> = manager.ids().iter().map(|id| id.to_string()).collect();
    assert_eq!(names, ["a:b", "a:z", "b:a"]);
    let gone = Identifier::parse("a:z").unwrap();
    assert!(manager.remove(&gone));
    assert!(!manager.remove(&gone));
    assert_eq!(manager.elapsed_nanos(&gone, 5), None);
}

#[test]
fn stopwatch_commands_report_missing_and_existing_stopwatches() {
    let mut manager = StopwatchManager::new(&StopwatchesData::new(0), 0);
    let id = Identifier::parse("x:y").unwrap();
    assert_eq!(
        execute_stopwatch(&mut manager, StopwatchOperation::QueryDefault, &id, 0),
        Err(StopwatchError::DoesNotExist)
    );
    assert_eq!(
        execute_stopwatch(&mut manager, StopwatchOperation::Create, &id, 10),
        Ok(StopwatchFeedback::Created)
    );
    assert_eq!(
        execute_stopwatch(&mut manager, StopwatchOperation::Create, &id, 10),
        Err(StopwatchError::AlreadyExists)
    );
    assert_eq!(
        execute_stopwatch(&mut manager, StopwatchOperation::QueryScaled, &id, 25),
        Ok(StopwatchFeedback::Queried(15))
    );
    assert_eq!(
        execute_stopwatch(&mut manager, StopwatchOperation::Restart, &id, 30),
        Ok(StopwatchFeedback::Restarted)
    );
    assert_eq!(
        execute_stopwatch(&mut manager, StopwatchOperation::Remove, &id, 30),
        Ok(StopwatchFeedback::Removed)
    );
    assert_eq!(
        execute_stopwatch(&mut manager, StopwatchOperation::Restart, &id, 30),
        Err(StopwatchError::DoesNotExist)
    );
}
