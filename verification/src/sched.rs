//! Scheduling: saving the registers of the task that a timer interrupt
//! stopped, and picking the task to run next (round robin).
use vstd::prelude::*;
use crate::task::{Tasks, TaskContext, TaskControlBlock, Tid, TrapContext, tids_sorted, has_tid, tcb_of, index_of,
    lemma_index_of, picks, none_running_above};

verus! {

/// How tasks share the processor.
#[derive(Clone, Copy, Debug, PartialEq, Eq, Structural)]
pub enum ScheduleRule {
    /// Each task runs until it gives the processor up.
    Batch,
    /// Tasks take turns, stopped by the timer.
    TimeSharing,
}

/// Hook run by the trap handler before a task switch; nothing to do.
pub fn schedule() {
}

/// Saves the registers of task `current`, stopped by a timer interrupt:
/// the general registers of `frame` and `sepc`, `sstatus`, `satp`.  Does
/// nothing when there is no current task or it has no entry.
pub fn save_current(tasks: &mut Tasks, current: Option<Tid>, frame: &[u64; 32], sepc: u64, sstatus: u64, satp: u64)
    requires
        tids_sorted(old(tasks).entries()),
    ensures
        tids_sorted(final(tasks).entries()),
        final(tasks).last() == old(tasks).last(),
        match current {
            Some(t) => if has_tid(old(tasks).entries(), t) {
                let i = index_of(old(tasks).entries(), t);
                let e = old(tasks).entries()[i].1;
                final(tasks).entries() == old(tasks).entries().update(i, (t, (TaskControlBlock {
                    trap_context: (TrapContext { context: *frame, sepc, sstatus, satp }),
                    ..e
                })))
            } else {
                final(tasks).entries() == old(tasks).entries()
            },
            None => final(tasks).entries() == old(tasks).entries(),
        },
{
    let t = match current {
        Some(t) => t,
        None => return,
    };
    let i = match tasks.find(t) {
        Some(i) => i,
        None => return,
    };
    let ghost s0 = tasks.entries();
    let (tid, mut tcb) = tasks.take_at(i);
    tcb.trap_context = TrapContext { context: *frame, sepc, sstatus, satp };
    tasks.put_at(i, (tid, tcb));
    proof {
        assert(tasks.entries() =~= s0.update(i as int, (tid, tcb)));
        assert forall|a: int, b: int| 0 <= a < b < tasks.entries().len() implies
            (#[trigger] tasks.entries()[a]).0.0 < (#[trigger] tasks.entries()[b]).0.0 by {
            assert(tasks.entries()[a].0 == s0[a].0 && tasks.entries()[b].0 == s0[b].0);
        }
    }
}

/// Picks the task to run next (see [`Tasks::spawn_current`]); `None`
/// when the table is empty, so that the caller tries again.
pub fn switch(tasks: &mut Tasks) -> (r: Option<TaskContext>)
    requires
        old(tasks).entries().len() == 0 || !none_running_above(old(tasks).entries(), -1),
    ensures
        old(tasks).entries().len() == 0 ==> r is None && final(tasks).entries() == old(tasks).entries()
            && final(tasks).last() == old(tasks).last(),
        old(tasks).entries().len() > 0 ==> (r matches Some(ctx) && exists|i: int| picks(old(tasks).entries(), old(tasks).last(), i)
            && (#[trigger] old(tasks).entries()[i]).0 == ctx.tid
            && ctx.context == old(tasks).entries()[i].1.trap_context
            && final(tasks).last() == Some(ctx.tid)),
{
    if tasks.is_empty() {
        return None;
    }
    match tasks.spawn_current() {
        Ok(ctx) => Some(ctx),
        Err(_) => None,
    }
}

} // verus!
