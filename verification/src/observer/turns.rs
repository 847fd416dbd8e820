//! What one turn of the observer changes.
use vstd::prelude::*;

use super::{
    discovery_notice, polled, polls, settled, waiting_notice, NoticeView, ObserverView,
};
use crate::graph::SnapshotView;
use crate::parameters::ParameterView;

verus! {

/// A graph that was read is told of only where the last attempt had failed, and a
/// failure only where the last attempt had not failed in the same way.
pub proof fn lemma_told(
    observer: ObserverView,
    snapshot: SnapshotView,
    error: Seq<char>,
    other: Seq<char>,
)
    ensures
        observer.last_error is None ==> discovery_notice(observer, Ok(snapshot)) is None,
        observer.last_error is Some ==> discovery_notice(observer, Ok(snapshot)) == Some(
            NoticeView::Log("pg_ros2 event=discovery_recovered"@),
        ),
        observer.last_error == Some(error) ==> discovery_notice(observer, Err(error)) is None,
        observer.last_error is None || (observer.last_error == Some(other) && other != error)
            ==> discovery_notice(observer, Err(error)) == Some(
            NoticeView::Warning("pg_ros2 event=discovery_failed error="@ + error),
        ),
{
}

/// That nothing is installed is told once, and again only after something was.
pub proof fn lemma_waiting_told(
    observer: ObserverView,
    outcome: Result<SnapshotView, Seq<char>>,
    extension: u32,
    now: u64,
)
    ensures
        waiting_notice(observer, Some(extension)) is None,
        !observer.waiting_logged ==> waiting_notice(observer, None) == Some(
            NoticeView::Log(
                "pg_ros2 event=waiting_for_extension hint=run_CREATE_EXTENSION_pg_ros2_in_configured_database"@,
            ),
        ),
        waiting_notice(settled(observer, outcome, None, now), None) is None,
        waiting_notice(settled(observer, outcome, Some(extension), now), None) is Some,
{
}

/// A graph that was read for an installed extension is kept as what was saved last.
/// A poll begins with it where the parameters are due and no poll is under way.
pub proof fn lemma_graph_kept(
    observer: ObserverView,
    snapshot: SnapshotView,
    extension: u32,
    now: u64,
)
    ensures
        ({
            let due = now >= observer.next_parameters && !observer.polling;
            let after = settled(observer, Ok(snapshot), Some(extension), now);
            &&& polls(observer, Ok(snapshot), Some(extension), now) == due
            &&& after.previous == Some(snapshot)
            &&& after.extension == Some(extension)
            &&& after.last_error is None
            &&& !after.waiting_logged
            &&& due ==> after.polling
            &&& !due ==> after.polling == observer.polling
            &&& after.startup == observer.startup
            &&& after.previous_parameters == observer.previous_parameters
            &&& after.parameter_extension == observer.parameter_extension
            &&& after.next_parameters == observer.next_parameters
        }),
{
}

/// A failure to read the graph for an installed extension is kept as the last error.
/// No poll begins with it, and what was saved stays known.
pub proof fn lemma_failure_kept(
    observer: ObserverView,
    error: Seq<char>,
    extension: u32,
    now: u64,
)
    ensures
        !polls(observer, Err(error), Some(extension), now),
        ({
            let after = settled(observer, Err(error), Some(extension), now);
            &&& after.previous == observer.previous
            &&& after.extension == Some(extension)
            &&& after.last_error == Some(error)
            &&& !after.waiting_logged
            &&& after.polling == observer.polling
            &&& after.startup == observer.startup
            &&& after.previous_parameters == observer.previous_parameters
            &&& after.parameter_extension == observer.parameter_extension
            &&& after.next_parameters == observer.next_parameters
        }),
{
}

/// Where nothing is installed, everything that was saved is forgotten, and no poll
/// begins.
pub proof fn lemma_nothing_installed(
    observer: ObserverView,
    snapshot: SnapshotView,
    error: Seq<char>,
    now: u64,
)
    ensures
        !polls(observer, Ok(snapshot), None, now),
        !polls(observer, Err(error), None, now),
        settled(observer, Ok(snapshot), None, now).last_error is None,
        settled(observer, Err(error), None, now).last_error == Some(error),
        forgets(observer, settled(observer, Ok(snapshot), None, now)),
        forgets(observer, settled(observer, Err(error), None, now)),
{
}

/// Whether an observer has forgotten what was saved, and keeps the rest.
pub open spec fn forgets(observer: ObserverView, after: ObserverView) -> bool {
    &&& after.previous is None
    &&& after.previous_parameters is None
    &&& after.extension is None
    &&& after.parameter_extension is None
    &&& after.waiting_logged
    &&& after.polling == observer.polling
    &&& after.startup == observer.startup
    &&& after.next_parameters == observer.next_parameters
}

/// A poll ends whatever came of it, and the parameters rest for five seconds. What
/// it found is kept as what was saved last; a failure leaves that as it was.
pub proof fn lemma_poll_ends(
    observer: ObserverView,
    parameters: Seq<ParameterView>,
    error: Seq<char>,
    installed: Option<u32>,
    now: u64,
)
    requires
        now <= 18446744073709491615,
    ensures
        polled(observer, Ok(parameters), installed, now).previous_parameters == Some(parameters),
        polled(observer, Err(error), installed, now).previous_parameters
            == observer.previous_parameters,
        rests(observer, polled(observer, Ok(parameters), installed, now), installed, now),
        rests(observer, polled(observer, Err(error), installed, now), installed, now),
{
}

/// Whether an observer rests after a poll, and keeps what it knows of the graph.
pub open spec fn rests(
    observer: ObserverView,
    after: ObserverView,
    installed: Option<u32>,
    now: u64,
) -> bool {
    &&& after.next_parameters == now + 5000
    &&& !after.polling
    &&& after.parameter_extension == installed
    &&& after.startup == observer.startup
    &&& after.previous == observer.previous
    &&& after.extension == observer.extension
    &&& after.last_error == observer.last_error
    &&& after.waiting_logged == observer.waiting_logged
}

} // verus!
