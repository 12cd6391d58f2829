//! What is recovered of the whole life of a store: of its operations, its transactions,
//! its compactions, and of what was written to the log file in between.

use vstd::prelude::*;
use crate::compact::compact_op;
use crate::laws::commands::{run, run_all, Command};
use crate::laws::compaction::compaction_is_durable;
use crate::laws::durability::{
    all_journal_well, begin_is_durable, commit_is_durable, durable, durable_store_is_recovered,
    journals_well, rollback_is_durable, run_is_durable, settling_keeps_durable, step_is_durable,
};
use crate::log::{records_from, LogWriteView};
use crate::model::{
    open_op, rolled_back, tx_begin_op, tx_commit_op, tx_rollback_op, StoreView,
};

verus! {

/// After any run of operations, opening the log gives exactly what the store holds, without
/// the changes of a transaction that is still open, and finds no damage.
pub proof fn run_is_recovered(
    v: StoreView,
    cs: Seq<(Command, u64)>,
    disk: Seq<u8>,
    fsync: bool,
)
    requires
        v.log is Some,
        !v.closed,
        durable(v, disk),
        all_journal_well(v, cs),
    ensures
        ({
            let w = run_all(v, cs);
            let file = w.owed.applied(disk);
            &&& open_op(file, fsync).map == rolled_back(w)
            &&& w.tx is None ==> open_op(file, fsync).map == w.map
            &&& records_from(file, 0).1 is None
        }),
{
    run_is_durable(v, cs, disk);
    durable_store_is_recovered(run_all(v, cs), disk, fsync);
}

/// What can happen to a store with a log, and to its log file.
pub enum Event {
    /// An operation.
    Operation(Command),
    Begin,
    Commit,
    Rollback,
    Compact,
    /// What is owed to the log file is carried out.
    Settle,
}

/// The store and its log file after an event at the time `now`.
pub open spec fn happened(v: StoreView, disk: Seq<u8>, e: Event, now: u64) -> (
    StoreView,
    Seq<u8>,
) {
    match e {
        Event::Operation(c) => (run(v, c, now), disk),
        Event::Begin => (tx_begin_op(v).0, disk),
        Event::Commit => (tx_commit_op(v).0, disk),
        Event::Rollback => (tx_rollback_op(v).0, disk),
        Event::Compact => (compact_op(v, now).0, disk),
        Event::Settle => (
            StoreView { owed: LogWriteView::none(), ..v },
            v.owed.applied(disk),
        ),
    }
}

/// The store and its log file after several events, each at its time.
pub open spec fn all_happened(v: StoreView, disk: Seq<u8>, es: Seq<(Event, u64)>) -> (
    StoreView,
    Seq<u8>,
)
    decreases es.len(),
{
    if es.len() == 0 {
        (v, disk)
    } else {
        let (w, file) = all_happened(v, disk, es.drop_last());
        happened(w, file, es.last().0, es.last().1)
    }
}

/// Whether the records that an event writes can be read back.
pub open spec fn event_fits(v: StoreView, e: Event, now: u64) -> bool {
    match e {
        Event::Operation(c) => journals_well(v, c, now),
        _ => true,
    }
}

/// Whether the records that several events write can be read back.
pub open spec fn events_fit(v: StoreView, disk: Seq<u8>, es: Seq<(Event, u64)>) -> bool
    decreases es.len(),
{
    es.len() > 0 ==> events_fit(v, disk, es.drop_last()) && event_fits(
        all_happened(v, disk, es.drop_last()).0,
        es.last().0,
        es.last().1,
    )
}

/// Every event leaves a store that can be recovered from its log file.
pub proof fn step_is_recoverable(v: StoreView, disk: Seq<u8>, e: Event, now: u64)
    requires
        v.log is Some,
        !v.closed,
        durable(v, disk),
        event_fits(v, e, now),
    ensures
        ({
            let (w, file) = happened(v, disk, e, now);
            &&& w.log is Some && !w.closed
            &&& durable(w, file)
        }),
{
    match e {
        Event::Operation(c) => step_is_durable(v, c, now, disk),
        Event::Begin => begin_is_durable(v, disk),
        Event::Commit => commit_is_durable(v, disk),
        Event::Rollback => rollback_is_durable(v, disk),
        Event::Compact => compaction_is_durable(v, now, disk),
        Event::Settle => settling_keeps_durable(v, disk),
    }
}

/// Whatever happens to an open store with a log, opening its log file gives exactly what
/// the store holds, without the changes of a transaction that is still open.
pub proof fn life_is_recovered(v: StoreView, disk: Seq<u8>, es: Seq<(Event, u64)>, fsync: bool)
    requires
        v.log is Some,
        !v.closed,
        durable(v, disk),
        events_fit(v, disk, es),
    ensures
        ({
            let (w, file) = all_happened(v, disk, es);
            let on_disk = w.owed.applied(file);
            &&& w.log is Some && !w.closed
            &&& durable(w, file)
            &&& open_op(on_disk, fsync).map == rolled_back(w)
            &&& records_from(on_disk, 0).1 is None
        }),
    decreases es.len(),
{
    if es.len() > 0 {
        let (w, file) = all_happened(v, disk, es.drop_last());
        life_is_recovered(v, disk, es.drop_last(), fsync);
        step_is_recoverable(w, file, es.last().0, es.last().1);
    }
    let (w, file) = all_happened(v, disk, es);
    durable_store_is_recovered(w, file, fsync);
}

} // verus!
