//! Tasks as the stride scheduler sees them, the ready queue, and the
//! switch from the running task to the next one.
use vstd::prelude::*;

pub mod manager;
pub mod processor;
pub mod task;

use manager::{fetched, TaskManager};
use processor::Processor;

verus! {

/// Puts the running task back at the end of the ready queue and runs the
/// task the stride scheduler picks next.
pub fn suspend_current_and_run_next(processor: &mut Processor, manager: &mut TaskManager)
    ensures
        fetched(
            match old(processor).current() {
                Some(t) => old(manager).queue().push(t),
                None => old(manager).queue(),
            },
            final(processor).current(),
            final(manager).queue(),
        ),
{
    if let Some(task) = processor.take_current() {
        manager.add(task);
    }
    let next = manager.fetch();
    processor.set_current(next);
}

/// Drops the running task and runs the task the stride scheduler picks next.
pub fn exit_current_and_run_next(processor: &mut Processor, manager: &mut TaskManager)
    ensures
        fetched(old(manager).queue(), final(processor).current(), final(manager).queue()),
{
    let _exited = processor.take_current();
    let next = manager.fetch();
    processor.set_current(next);
}

} // verus!
