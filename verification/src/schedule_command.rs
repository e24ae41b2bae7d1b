//! The decisions of the `/schedule` command: what it schedules or clears,
//! what it answers, and when it fails.
use vstd::prelude::*;

use crate::arguments::FunctionReference;
use crate::data_pack::{map_get, DataPackManager};
use crate::identifier::id_text;
use crate::scheduler::{schedule_result, FunctionScheduler, ScheduledFunctionKind, SchedulerView};
use crate::text::owned;

verus! {

/// Why a `/schedule` command failed.
#[derive(Debug, PartialEq, Eq)]
pub enum ScheduleCommandError {
    /// No function or tag of that identifier; holds it as written, with `#`
    /// for a tag.
    UnknownFunction(String),
    /// No event of that name was scheduled.
    ClearFailed(String),
}

/// What scheduling reports: when the function runs, and the command's
/// result value.
#[derive(Clone, Copy, Debug, PartialEq, Eq, Structural)]
pub struct Scheduled {
    pub trigger_time: i64,
    pub result: i32,
}

/// The kind of event a reference schedules.
pub open spec fn reference_kind(is_tag: bool) -> ScheduledFunctionKind {
    if is_tag {
        ScheduledFunctionKind::Tag
    } else {
        ScheduledFunctionKind::Function
    }
}

/// The result value of scheduling: the trigger time, wrapped into the
/// non-negative 32-bit range.
pub open spec fn schedule_result_value(trigger_time: i64) -> int {
    (trigger_time as int) % 2147483647
}

/// `/schedule function <function> <time> [append|replace]`: the function or
/// tag must exist; it is then scheduled `delay` ticks from now.
pub fn execute_schedule(
    scheduler: &mut FunctionScheduler,
    manager: &DataPackManager,
    reference: &FunctionReference,
    delay: i32,
    replace: bool,
) -> (r: Result<Scheduled, ScheduleCommandError>)
    requires
        old(scheduler)@.next_sequence < u64::MAX,
    ensures
        ({
            let exists = if reference.is_tag {
                map_get(manager@.tags, reference.id@) is Some
            } else {
                map_get(manager@.functions, reference.id@) is Some
            };
            if exists {
                let (v, t) = schedule_result(old(scheduler)@, reference.id@, reference_kind(reference.is_tag), delay, replace);
                r matches Ok(s) && s.trigger_time == t && s.result == schedule_result_value(t) && final(scheduler)@ == v
            } else {
                final(scheduler)@ == old(scheduler)@ && (r matches Err(ScheduleCommandError::UnknownFunction(d)) && d@
                    == if reference.is_tag {
                    seq!['#'] + id_text(reference.id@)
                } else {
                    id_text(reference.id@)
                })
            }
        }),
{
    let exists = if reference.is_tag {
        manager.has_tag(&reference.id)
    } else {
        manager.function(&reference.id).is_some()
    };
    if !exists {
        let display = if reference.is_tag {
            let mut d = owned("#");
            crate::text::push_str(&mut d, reference.id.to_string().as_str());
            proof {
                reveal_strlit("#");
            }
            d
        } else {
            reference.id.to_string()
        };
        return Err(ScheduleCommandError::UnknownFunction(display));
    }
    let kind = if reference.is_tag {
        ScheduledFunctionKind::Tag
    } else {
        ScheduledFunctionKind::Function
    };
    let trigger_time = scheduler.schedule(reference.id.copy(), kind, delay, replace);
    let m = trigger_time % 2147483647i64;
    let result = if m < 0 {
        (m + 2147483647i64) as i32
    } else {
        m as i32
    };
    Ok(Scheduled { trigger_time, result })
}

/// `/schedule clear <function>`: removes every event of that name; clearing
/// none fails. The result value is how many were removed, at most the
/// largest 32-bit value.
pub fn execute_schedule_clear(scheduler: &mut FunctionScheduler, name: &str) -> (r: Result<
    i32,
    ScheduleCommandError,
>)
    ensures
        final(scheduler)@ == (SchedulerView {
            events: old(scheduler)@.events.filter(crate::scheduler::not_named(name@)),
            ..old(scheduler)@
        }),
        ({
            let removed = old(scheduler)@.events.len() - final(scheduler)@.events.len();
            if removed == 0 {
                r matches Err(ScheduleCommandError::ClearFailed(n)) && n@ == name@
            } else {
                r == Ok::<i32, ScheduleCommandError>(if removed > i32::MAX {
                    i32::MAX
                } else {
                    removed as i32
                })
            }
        }),
{
    let removed = scheduler.clear(name);
    if removed == 0 {
        return Err(ScheduleCommandError::ClearFailed(owned(name)));
    }
    if removed > i32::MAX as usize {
        Ok(i32::MAX)
    } else {
        Ok(removed as i32)
    }
}

} // verus!
