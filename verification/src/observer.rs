//! The worker that keeps snapshots of the ROS graph and of its parameters.
//!
//! The observer decides; its caller spins the executor, reads the graph, polls
//! the parameter services and runs the statements.
use vstd::prelude::*;
use vstd::string::*;

use crate::graph;
use crate::graph::{copy_pairs, GraphSnapshot};
use crate::graph::SnapshotView;
use crate::parameters;
use crate::parameters::poll::{normalized, peer_of, peer_views};
use crate::parameters::poll::{peers, Peer};
use crate::parameters::Parameter;
use crate::parameters::{parameter_views, ParameterView};
use crate::sql::Statement;
use crate::sql::{statement_views, text_view};
use crate::text::combine;
use crate::time::LATEST;

pub mod turns;

verus! {

/// How long the observer lets discovery warm up.
pub const WARM_UP: u64 = 1000;

/// How long parameters rest after a poll.
pub const POLL_REST: u64 = 5000;

/// Something to be logged.
pub enum Notice {
    Log(String),
    Warning(String),
}

/// The mathematical content of a [`Notice`].
pub enum NoticeView {
    Log(Seq<char>),
    Warning(Seq<char>),
}

impl View for Notice {
    type V = NoticeView;

    open spec fn view(&self) -> NoticeView {
        match self {
            Notice::Log(text) => NoticeView::Log(text@),
            Notice::Warning(text) => NoticeView::Warning(text@),
        }
    }
}

/// The content of an optional notice.
pub open spec fn notice_view(notice: Option<Notice>) -> Option<NoticeView> {
    match notice {
        Some(notice) => Some(notice@),
        None => None,
    }
}

/// What was saved last, and when parameters are due.
pub struct Observer {
    pub startup: u64,
    pub previous: Option<GraphSnapshot>,
    pub extension: Option<u32>,
    pub last_error: Option<String>,
    pub waiting_logged: bool,
    pub previous_parameters: Option<Vec<Parameter>>,
    pub parameter_extension: Option<u32>,
    pub next_parameters: u64,
    pub polling: bool,
}

/// The mathematical content of an [`Observer`].
pub struct ObserverView {
    pub startup: u64,
    pub previous: Option<SnapshotView>,
    pub extension: Option<u32>,
    pub last_error: Option<Seq<char>>,
    pub waiting_logged: bool,
    pub previous_parameters: Option<Seq<ParameterView>>,
    pub parameter_extension: Option<u32>,
    pub next_parameters: u64,
    pub polling: bool,
}

impl View for Observer {
    type V = ObserverView;

    open spec fn view(&self) -> ObserverView {
        ObserverView {
            startup: self.startup,
            previous: match self.previous {
                Some(snapshot) => Some(snapshot@),
                None => None,
            },
            extension: self.extension,
            last_error: text_view(self.last_error),
            waiting_logged: self.waiting_logged,
            previous_parameters: match self.previous_parameters {
                Some(list) => Some(parameter_views(list@)),
                None => None,
            },
            parameter_extension: self.parameter_extension,
            next_parameters: self.next_parameters,
            polling: self.polling,
        }
    }
}

/// The content of the outcome of an attempt to read the graph.
pub open spec fn graph_outcome(snapshot: Result<GraphSnapshot, String>) -> Result<
    SnapshotView,
    Seq<char>,
> {
    match snapshot {
        Ok(snapshot) => Ok(snapshot@),
        Err(error) => Err(error@),
    }
}

/// The content of the outcome of a poll.
pub open spec fn poll_outcome(parameters: Result<Vec<Parameter>, String>) -> Result<
    Seq<ParameterView>,
    Seq<char>,
> {
    match parameters {
        Ok(list) => Ok(parameter_views(list@)),
        Err(error) => Err(error@),
    }
}

/// The error of an outcome.
pub open spec fn error_of<T>(outcome: Result<T, Seq<char>>) -> Option<Seq<char>> {
    match outcome {
        Ok(_) => None,
        Err(error) => Some(error),
    }
}

/// What is logged of the outcome of an attempt to read the graph: only what is
/// new about it.
pub open spec fn discovery_notice(
    observer: ObserverView,
    outcome: Result<SnapshotView, Seq<char>>,
) -> Option<NoticeView> {
    if error_of(outcome) == observer.last_error {
        None
    } else {
        match outcome {
            Ok(_) => Some(NoticeView::Log("pg_ros2 event=discovery_recovered"@)),
            Err(error) => Some(
                NoticeView::Warning("pg_ros2 event=discovery_failed error="@ + error),
            ),
        }
    }
}

/// Whether parameters are polled after an attempt to read the graph.
pub open spec fn polls(
    observer: ObserverView,
    outcome: Result<SnapshotView, Seq<char>>,
    installed: Option<u32>,
    now: u64,
) -> bool {
    installed is Some && outcome is Ok && now >= observer.next_parameters && !observer.polling
}

/// The observer after the outcome of an attempt to read the graph has been
/// saved to the extension that is installed.
pub open spec fn settled(
    observer: ObserverView,
    outcome: Result<SnapshotView, Seq<char>>,
    installed: Option<u32>,
    now: u64,
) -> ObserverView {
    if installed is Some {
        ObserverView {
            previous: match outcome {
                Ok(snapshot) => Some(snapshot),
                Err(_) => observer.previous,
            },
            waiting_logged: false,
            extension: installed,
            last_error: error_of(outcome),
            polling: observer.polling || polls(observer, outcome, installed, now),
            ..observer
        }
    } else {
        ObserverView {
            previous: None,
            previous_parameters: None,
            parameter_extension: None,
            waiting_logged: true,
            extension: None,
            last_error: error_of(outcome),
            ..observer
        }
    }
}

/// What is logged when nothing is installed, once.
pub open spec fn waiting_notice(observer: ObserverView, installed: Option<u32>) -> Option<
    NoticeView,
> {
    if installed is None && !observer.waiting_logged {
        Some(
            NoticeView::Log(
                "pg_ros2 event=waiting_for_extension hint=run_CREATE_EXTENSION_pg_ros2_in_configured_database"@,
            ),
        )
    } else {
        None
    }
}

/// The observer after the outcome of a poll has been saved.
pub open spec fn polled(
    observer: ObserverView,
    outcome: Result<Seq<ParameterView>, Seq<char>>,
    installed: Option<u32>,
    now: u64,
) -> ObserverView {
    ObserverView {
        previous_parameters: match outcome {
            Ok(parameters) => Some(parameters),
            Err(_) => observer.previous_parameters,
        },
        parameter_extension: installed,
        next_parameters: (now + POLL_REST) as u64,
        polling: false,
        ..observer
    }
}

impl Observer {
    /// An observer that has saved nothing.
    pub fn new(now: u64) -> (observer: Observer)
        requires
            now <= LATEST,
        ensures
            observer@ == (ObserverView {
                startup: (now + WARM_UP) as u64,
                previous: None,
                extension: None,
                last_error: None,
                waiting_logged: false,
                previous_parameters: None,
                parameter_extension: None,
                next_parameters: (now + WARM_UP) as u64,
                polling: false,
            }),
            observer@.startup == now + 1000,
            observer@.next_parameters == now + 1000,
    {
        Observer {
            startup: now + WARM_UP,
            previous: None,
            extension: None,
            last_error: None,
            waiting_logged: false,
            previous_parameters: None,
            parameter_extension: None,
            next_parameters: now + WARM_UP,
            polling: false,
        }
    }

    /// Whether discovery has warmed up. Until it has, a change of the graph is
    /// left to be seen.
    pub fn started(&self, now: u64) -> (result: bool)
        ensures
            result == (now >= self@.startup),
    {
        now >= self.startup
    }

    /// The statements, to be run in one transaction, that save the outcome of
    /// an attempt to read the graph.
    pub fn statements(
        &self,
        installed: Option<(u32, &str)>,
        snapshot: &Result<GraphSnapshot, String>,
    ) -> (statements: Vec<Statement>)
        ensures
            statement_views(statements@) == (match installed {
                Some((extension, schema)) => graph::saving_statements(
                    schema@,
                    extension,
                    graph_outcome(*snapshot),
                    self@.previous,
                    self@.extension,
                ),
                None => Seq::empty(),
            }),
    {
        let outcome: Result<&GraphSnapshot, &str> = match snapshot {
            Ok(snapshot) => Ok(snapshot),
            Err(error) => Err(error.as_str()),
        };
        graph::persist_snapshot(installed, outcome, self.previous.as_ref(), self.extension)
    }

    /// What is to be logged of the outcome of an attempt to read the graph.
    pub fn discovered(&self, snapshot: &Result<GraphSnapshot, String>) -> (notice: Option<Notice>)
        ensures
            notice_view(notice) == discovery_notice(self@, graph_outcome(*snapshot)),
    {
        match (snapshot, &self.last_error) {
            (Ok(_), None) => None,
            (Ok(_), Some(_)) => Some(
                Notice::Log("pg_ros2 event=discovery_recovered".to_owned()),
            ),
            (Err(error), last) => {
                let known: bool = match last {
                    Some(last) => *last == *error,
                    None => false,
                };
                if known {
                    None
                } else {
                    Some(
                        Notice::Warning(
                            combine("pg_ros2 event=discovery_failed error=", error.as_str()),
                        ),
                    )
                }
            },
        }
    }

    /// Takes in the outcome of an attempt to read the graph, once it has been
    /// saved to the extension that is installed. Gives back what is to be
    /// logged, and the peers to poll for parameters where that is due.
    pub fn settle(
        &mut self,
        snapshot: Result<GraphSnapshot, String>,
        installed: Option<u32>,
        now: u64,
    ) -> (result: (Option<Notice>, Option<Vec<Peer>>))
        ensures
            final(self)@ == settled(old(self)@, graph_outcome(snapshot), installed, now),
            notice_view(result.0) == waiting_notice(old(self)@, installed),
            result.1 is Some <==> polls(old(self)@, graph_outcome(snapshot), installed, now),
            result.1 is Some ==> peer_views(result.1->Some_0@) == normalized::<(String, String)>(
                graph_outcome(snapshot)->Ok_0.nodes,
            ).map_values(|node: (Seq<char>, Seq<char>)| peer_of(node)),
    {
        let mut notice: Option<Notice> = None;
        let mut poll: Option<Vec<Peer>> = None;
        match installed {
            Some(_) => {
                self.waiting_logged = false;
                match snapshot {
                    Ok(snapshot) => {
                        if now >= self.next_parameters && !self.polling {
                            self.polling = true;
                            poll = Some(peers(copy_pairs(&snapshot.nodes)));
                        }
                        self.previous = Some(snapshot);
                        self.last_error = None;
                    },
                    Err(error) => {
                        self.last_error = Some(error);
                    },
                }
            },
            None => {
                self.previous = None;
                self.previous_parameters = None;
                self.parameter_extension = None;
                if !self.waiting_logged {
                    notice = Some(
                        Notice::Log(
                            "pg_ros2 event=waiting_for_extension hint=run_CREATE_EXTENSION_pg_ros2_in_configured_database".to_owned(),
                        ),
                    );
                    self.waiting_logged = true;
                }
                self.last_error = match snapshot {
                    Ok(_) => None,
                    Err(error) => Some(error),
                };
            },
        }
        self.extension = installed;
        (notice, poll)
    }

    /// The statements, to be run in one transaction, that save the outcome of a
    /// poll.
    pub fn parameter_statements(
        &self,
        installed: Option<(u32, &str)>,
        parameters: &Result<Vec<Parameter>, String>,
    ) -> (statements: Vec<Statement>)
        ensures
            statement_views(statements@) == (match installed {
                Some((extension, schema)) => parameters::saving_statements(
                    schema@,
                    extension,
                    poll_outcome(*parameters),
                    self@.previous_parameters,
                    self@.parameter_extension,
                ),
                None => Seq::empty(),
            }),
    {
        let outcome: Result<&Vec<Parameter>, &str> = match parameters {
            Ok(list) => Ok(list),
            Err(error) => Err(error.as_str()),
        };
        parameters::persist(
            installed,
            outcome,
            self.previous_parameters.as_ref(),
            self.parameter_extension,
        )
    }

    /// Takes in the outcome of a poll, once it has been saved to the extension
    /// that is installed. Gives back what is to be logged.
    pub fn finish_poll(
        &mut self,
        parameters: Result<Vec<Parameter>, String>,
        installed: Option<u32>,
        now: u64,
    ) -> (notice: Option<Notice>)
        requires
            now <= LATEST,
        ensures
            final(self)@ == polled(old(self)@, poll_outcome(parameters), installed, now),
            notice_view(notice) == (match poll_outcome(parameters) {
                Ok(_) => None,
                Err(error) => Some(
                    NoticeView::Warning(
                        "pg_ros2 event=parameter_discovery_failed error="@ + error,
                    ),
                ),
            }),
    {
        self.parameter_extension = installed;
        self.next_parameters = now + POLL_REST;
        self.polling = false;
        match parameters {
            Ok(list) => {
                self.previous_parameters = Some(list);
                None
            },
            Err(error) => Some(
                Notice::Warning(
                    combine(
                        "pg_ros2 event=parameter_discovery_failed error=",
                        error.as_str(),
                    ),
                ),
            ),
        }
    }
}

/// Saving a snapshot that was saved already rewrites nothing.
pub proof fn lemma_saved_once(
    observer: ObserverView,
    snapshot: SnapshotView,
    extension: u32,
    schema: Seq<char>,
    now: u64,
)
    ensures
        ({
            let after = settled(observer, Ok(snapshot), Some(extension), now);
            graph::saving_statements(
                schema,
                extension,
                Ok(snapshot),
                after.previous,
                after.extension,
            ) == seq![graph::status_statement(schema, false, None)]
        }),
{
    graph::lemma_unchanged_untouched(schema, extension, snapshot);
}

/// A failed attempt to read the graph forgets nothing that was saved.
pub proof fn lemma_failure_forgets_nothing(
    observer: ObserverView,
    error: Seq<char>,
    extension: u32,
    now: u64,
)
    ensures
        ({
            let after = settled(observer, Err(error), Some(extension), now);
            after.previous == observer.previous && after.previous_parameters
                == observer.previous_parameters && after.polling == observer.polling
        }),
{
}

/// Once the extension was gone, the next snapshot is saved in full, whatever it
/// holds.
pub proof fn lemma_reinstalled_saved_in_full(
    observer: ObserverView,
    lost: Result<SnapshotView, Seq<char>>,
    snapshot: SnapshotView,
    extension: u32,
    schema: Seq<char>,
    now: u64,
)
    ensures
        ({
            let after = settled(observer, lost, None, now);
            graph::saving_statements(
                schema,
                extension,
                Ok(snapshot),
                after.previous,
                after.extension,
            ) == graph::replacing_statements(schema, snapshot).push(
                graph::status_statement(schema, true, None),
            )
        }),
{
    let after = settled(observer, lost, None, now);
    graph::lemma_change_replaces(schema, extension, snapshot, after.previous, after.extension);
}

/// An error is warned of once, until the graph is read again or the error
/// changes.
pub proof fn lemma_warned_once(
    observer: ObserverView,
    outcome: Result<SnapshotView, Seq<char>>,
    installed: Option<u32>,
    now: u64,
)
    ensures
        discovery_notice(settled(observer, outcome, installed, now), outcome) is None,
{
}

/// Polls do not overlap, and one begins at the earliest five seconds after the
/// last has come to its end.
pub proof fn lemma_polls_rest(
    observer: ObserverView,
    first: Result<SnapshotView, Seq<char>>,
    second: Result<SnapshotView, Seq<char>>,
    outcome: Result<Seq<ParameterView>, Seq<char>>,
    installed: Option<u32>,
    again: Option<u32>,
    start: u64,
    end: u64,
    later: u64,
)
    requires
        end <= LATEST,
        polls(observer, first, installed, start),
    ensures
        !polls(settled(observer, first, installed, start), second, again, later),
        polls(
            polled(settled(observer, first, installed, start), outcome, installed, end),
            second,
            again,
            later,
        ) ==> later >= end + POLL_REST,
{
}

/// Polls and the graph are kept apart: a poll, whatever becomes of it, changes
/// nothing of what is known of the graph, and one that is under way makes no
/// difference to how the graph is saved.
pub proof fn lemma_graph_apart(
    observer: ObserverView,
    parameters: Result<Seq<ParameterView>, Seq<char>>,
    outcome: Result<SnapshotView, Seq<char>>,
    installed: Option<u32>,
    now: u64,
)
    ensures
        ({
            let after = polled(observer, parameters, installed, now);
            after.previous == observer.previous && after.extension == observer.extension
                && after.last_error == observer.last_error
        }),
        ({
            let idle = settled(ObserverView { polling: false, ..observer }, outcome, installed, now);
            let busy = settled(ObserverView { polling: true, ..observer }, outcome, installed, now);
            idle.previous == busy.previous && idle.extension == busy.extension && idle.last_error
                == busy.last_error
        }),
{
}

/// A failed poll forgets nothing that was saved, and one that gave parameters
/// that were saved already rewrites nothing.
pub proof fn lemma_poll_saved_once(
    observer: ObserverView,
    parameters: Seq<ParameterView>,
    error: Seq<char>,
    extension: u32,
    schema: Seq<char>,
    now: u64,
)
    ensures
        polled(observer, Err(error), Some(extension), now).previous_parameters
            == observer.previous_parameters,
        ({
            let after = polled(observer, Ok(parameters), Some(extension), now);
            parameters::saving_statements(
                schema,
                extension,
                Ok(parameters),
                after.previous_parameters,
                after.parameter_extension,
            ) == seq![parameters::status_statement(schema, false, None)]
        }),
{
    parameters::lemma_unchanged_untouched(schema, extension, parameters);
}

} // verus!
