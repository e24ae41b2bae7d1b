use pumpkin::identifier::Identifier;
use pumpkin::scheduler::{
    FunctionScheduler, ScheduledEventCallbackData, ScheduledEventData, ScheduledEventsData,
    ScheduledFunctionKind,
};

#[test]
fn replace_and_append_match_vanilla_identity_rules() {
    let mut scheduler = FunctionScheduler::new(&ScheduledEventsData::new(0), 100);
    let id = Identifier::parse("test:later").unwrap();

    scheduler.schedule(id.copy(), ScheduledFunctionKind::Function, 20, false);
    scheduler.schedule(id.copy(), ScheduledFunctionKind::Function, 30, false);
    scheduler.schedule(id, ScheduledFunctionKind::Function, 40, true);

    let snapshot = scheduler.snapshot(0);
    assert_eq!(snapshot.events.len(), 1);
    assert_eq!(snapshot.events[0].trigger_time, 140);
    assert_eq!(snapshot.events[0].id, "test:later");
}

#[test]
fn duplicate_name_and_time_is_ignored() {
    let mut scheduler = FunctionScheduler::new(&ScheduledEventsData::new(0), 0);
    let id = Identifier::parse("test:later").unwrap();
    scheduler.schedule(id.copy(), ScheduledFunctionKind::Function, 20, false);
    scheduler.schedule(id, ScheduledFunctionKind::Function, 20, false);
    assert_eq!(scheduler.snapshot(0).events.len(), 1);
}

fn saved(time: i64, id: &str, callback_type: &str, callback_id: &str) -> ScheduledEventData {
    ScheduledEventData {
        trigger_time: time,
        id: id.to_string(),
        callback: ScheduledEventCallbackData {
            callback_type: callback_type.to_string(),
            id: callback_id.to_string(),
        },
    }
}

#[test]
fn loading_drops_unknown_callbacks_and_orders_by_time() {
    let data = ScheduledEventsData {
        data_version: 1,
        events: vec![
            saved(50, "a:late", "minecraft:function", "a:late"),
            saved(10, "bogus", "minecraft:unknown", "a:x"),
            saved(10, "#a:early", "function_tag", "a:early"),
            saved(10, "bad", "function", "Not Valid"),
        ],
    };
    let scheduler = FunctionScheduler::new(&data, 0);
    let snapshot = scheduler.snapshot(3);
    assert_eq!(snapshot.data_version, 3);
    assert_eq!(snapshot.events.len(), 2);
    assert_eq!(snapshot.events[0].id, "#a:early");
    assert_eq!(snapshot.events[0].callback.callback_type, "minecraft:function_tag");
    assert_eq!(snapshot.events[1].id, "a:late");
    assert_eq!(scheduler.events()[0].sequence, 2);
}

#[test]
fn tick_hands_out_due_events_in_order() {
    let mut scheduler = FunctionScheduler::new(&ScheduledEventsData::new(0), 0);
    let a = Identifier::parse("t:a").unwrap();
    let b = Identifier::parse("t:b").unwrap();
    assert_eq!(scheduler.schedule(b.copy(), ScheduledFunctionKind::Tag, 2, false), 2);
    assert_eq!(scheduler.schedule(a.copy(), ScheduledFunctionKind::Function, 1, false), 1);
    assert_eq!(scheduler.schedule(a, ScheduledFunctionKind::Function, 2, false), 2);
    assert_eq!(scheduler.event_names(), vec!["#t:b".to_string(), "t:a".to_string()]);
    let first = scheduler.tick();
    assert_eq!(scheduler.current_time(), 1);
    assert_eq!(first.len(), 1);
    assert_eq!(first[0].name, "t:a");
    let second = scheduler.tick();
    assert_eq!(second.len(), 2);
    assert_eq!(second[0].name, "#t:b");
    assert_eq!(second[1].name, "t:a");
    assert!(scheduler.tick().is_empty());
}

#[test]
fn clear_counts_the_removed_events() {
    let mut scheduler = FunctionScheduler::new(&ScheduledEventsData::new(0), 0);
    let a = Identifier::parse("t:a").unwrap();
    scheduler.schedule(a.copy(), ScheduledFunctionKind::Function, 5, false);
    scheduler.schedule(a.copy(), ScheduledFunctionKind::Function, 6, false);
    scheduler.schedule(a, ScheduledFunctionKind::Tag, 6, false);
    assert_eq!(scheduler.clear("t:a"), 2);
    assert_eq!(scheduler.clear("t:a"), 0);
    assert_eq!(scheduler.event_names(), vec!["#t:a".to_string()]);
}

#[test]
fn delay_saturates_at_the_end_of_time() {
    let mut scheduler = FunctionScheduler::new(&ScheduledEventsData::new(0), i64::MAX - 1);
    let a = Identifier::parse("t:a").unwrap();
    assert_eq!(scheduler.schedule(a, ScheduledFunctionKind::Function, 10, false), i64::MAX);
}

use pumpkin::arguments::FunctionReference;
use pumpkin::data_pack::{parse_function_text, DataPackManager};
use pumpkin::schedule_command::{execute_schedule, execute_schedule_clear, ScheduleCommandError, Scheduled};

fn manager_with(id: &str) -> DataPackManager {
    let mut manager = DataPackManager::new(&Vec::new(), &Vec::new());
    let id = Identifier::parse(id).unwrap();
    manager.put_function(parse_function_text(&id, "say hi").unwrap());
    manager
}

#[test]
fn schedule_command_needs_an_existing_function() {
    let manager = manager_with("test:later");
    let mut scheduler = FunctionScheduler::new(&ScheduledEventsData::new(0), 100);
    let later = FunctionReference { id: Identifier::parse("test:later").unwrap(), is_tag: false };
    assert_eq!(
        execute_schedule(&mut scheduler, &manager, &later, 20, true),
        Ok(Scheduled { trigger_time: 120, result: 120 })
    );
    let missing = FunctionReference { id: Identifier::parse("test:missing").unwrap(), is_tag: true };
    assert_eq!(
        execute_schedule(&mut scheduler, &manager, &missing, 20, true),
        Err(ScheduleCommandError::UnknownFunction("#test:missing".to_string()))
    );
    assert_eq!(scheduler.snapshot(0).events.len(), 1);
}

#[test]
fn schedule_result_wraps_into_the_positive_range() {
    let manager = manager_with("test:later");
    let mut scheduler = FunctionScheduler::new(&ScheduledEventsData::new(0), i32::MAX as i64);
    let later = FunctionReference { id: Identifier::parse("test:later").unwrap(), is_tag: false };
    let scheduled = execute_schedule(&mut scheduler, &manager, &later, 5, false).unwrap();
    assert_eq!(scheduled.trigger_time, i32::MAX as i64 + 5);
    assert_eq!(scheduled.result, 5);
}

#[test]
fn clearing_reports_how_many_events_went() {
    let manager = manager_with("test:later");
    let mut scheduler = FunctionScheduler::new(&ScheduledEventsData::new(0), 0);
    let later = FunctionReference { id: Identifier::parse("test:later").unwrap(), is_tag: false };
    execute_schedule(&mut scheduler, &manager, &later, 5, false).unwrap();
    execute_schedule(&mut scheduler, &manager, &later, 6, false).unwrap();
    assert_eq!(execute_schedule_clear(&mut scheduler, "test:later"), Ok(2));
    assert_eq!(
        execute_schedule_clear(&mut scheduler, "test:later"),
        Err(ScheduleCommandError::ClearFailed("test:later".to_string()))
    );
}

#[test]
fn saved_events_reload_as_saved() {
    let data = ScheduledEventsData {
        data_version: 1,
        events: vec![
            saved(10, "#a:early", "minecraft:function_tag", "a:early"),
            saved(10, "a:same_time", "minecraft:function", "a:same_time"),
            saved(50, "a:late", "minecraft:function", "a:late"),
        ],
    };
    let first = FunctionScheduler::new(&data, 0).snapshot(1);
    let second = FunctionScheduler::new(&first, 0).snapshot(1);
    assert_eq!(first, second);
    assert_eq!(first, data);
}
