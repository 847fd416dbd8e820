//! Publication of one message to a ROS topic.
//!
//! A publication decides; its caller talks to ROS. It is advanced by turns:
//! each turn takes what came of the last action, and names the next.
use vstd::prelude::*;
use vstd::string::*;

use crate::json::Json;
use crate::json::JsonView;
use crate::message::Message;
use crate::message::MessageView;
use crate::naming;
use crate::naming::valid_topic;
use crate::text::combine;
use crate::time::LATEST;

pub mod fields;
pub mod json;
pub mod laws;
pub mod reencoding;
pub mod round_trip;
pub mod turns;

verus! {

/// How long graph discovery may take before the message type must be supplied.
pub const DISCOVERY: u64 = 5000;

/// How long a publisher waits for a matching subscription before sending.
pub const MATCHING: u64 = 2000;

/// How long to keep spinning after publishing so that the sample can be
/// serialized.
pub const FLUSH: u64 = 100;

/// What a publication is waiting for.
#[derive(Clone, Copy, PartialEq, Eq, Structural)]
pub enum Phase {
    /// A node.
    Opening,
    /// The types that the graph advertises for the topic.
    Discovering,
    /// The executor, before the graph is read again.
    Undiscovered,
    /// A message of the resolved type.
    Making,
    /// A publisher.
    Creating,
    /// The number of matching subscriptions.
    Matching,
    /// The executor, before subscriptions are counted again.
    Unmatched,
    /// The message to be sent.
    Sending,
    /// The executor, which serializes the sample.
    Flushing,
    /// Nothing: the publication has come to its end.
    Over,
}

/// One publication.
pub struct Publication {
    pub topic: String,
    /// The message type, where it was given.
    pub requested: Option<String>,
    pub value: Json,
    pub phase: Phase,
    /// The message type, once it is known.
    pub kind: String,
    /// The message, from when it is made until it is sent.
    pub message: Option<Message>,
    pub deadline: u64,
}

/// The mathematical content of a [`Publication`].
pub struct PublicationView {
    pub topic: Seq<char>,
    pub requested: Option<Seq<char>>,
    pub value: JsonView,
    pub phase: Phase,
    pub kind: Seq<char>,
    pub message: Option<MessageView>,
    pub deadline: u64,
}

impl View for Publication {
    type V = PublicationView;

    open spec fn view(&self) -> PublicationView {
        PublicationView {
            topic: self.topic@,
            requested: crate::sql::text_view(self.requested),
            value: self.value@,
            phase: self.phase,
            kind: self.kind@,
            message: match self.message {
                Some(message) => Some(message@),
                None => None,
            },
            deadline: self.deadline,
        }
    }
}

/// What came of the last action.
pub enum Reply {
    /// Whether there is a node.
    Opened(Result<(), String>),
    /// The types that the graph advertises for the topic, where it knows it.
    Types(Result<Option<Vec<String>>, String>),
    /// A message of the resolved type, with the values of a new one.
    Made(Result<Message, String>),
    /// Whether there is a publisher.
    Created(Result<(), String>),
    /// The number of matching subscriptions.
    Matched(Result<usize, String>),
    /// Whether the message was sent.
    Sent(Result<(), String>),
    /// Whether the executor has spun.
    Spun(Result<(), String>),
}

/// What is to be done.
pub enum Action {
    Open,
    ReadGraph,
    /// Make a message of this type.
    Make(String),
    /// Create a publisher of this type.
    Create(String),
    CountSubscriptions,
    Send(Message),
    Spin,
    /// Nothing any more: a message of this type was published.
    Done(String),
    /// Nothing any more: the publication has failed.
    Fail(String),
}

/// The mathematical content of an [`Action`].
pub enum ActionView {
    Open,
    ReadGraph,
    Make(Seq<char>),
    Create(Seq<char>),
    CountSubscriptions,
    Send(MessageView),
    Spin,
    Done(Seq<char>),
    Fail(Seq<char>),
}

impl View for Action {
    type V = ActionView;

    open spec fn view(&self) -> ActionView {
        match self {
            Action::Open => ActionView::Open,
            Action::ReadGraph => ActionView::ReadGraph,
            Action::Make(kind) => ActionView::Make(kind@),
            Action::Create(kind) => ActionView::Create(kind@),
            Action::CountSubscriptions => ActionView::CountSubscriptions,
            Action::Send(message) => ActionView::Send(message@),
            Action::Spin => ActionView::Spin,
            Action::Done(kind) => ActionView::Done(kind@),
            Action::Fail(error) => ActionView::Fail(error@),
        }
    }
}

/// Whether a reply is one that the publication waits for.
pub open spec fn awaited(phase: Phase, reply: Reply) -> bool {
    match phase {
        Phase::Opening => reply is Opened,
        Phase::Discovering => reply is Types,
        Phase::Undiscovered => reply is Spun,
        Phase::Making => reply is Made,
        Phase::Creating => reply is Created,
        Phase::Matching => reply is Matched,
        Phase::Unmatched => reply is Spun,
        Phase::Sending => reply is Sent,
        Phase::Flushing => reply is Spun,
        Phase::Over => false,
    }
}

/// Whether a publication has its message while it needs it.
pub open spec fn holds_message(publication: PublicationView) -> bool {
    publication.phase == Phase::Creating || publication.phase == Phase::Matching
        || publication.phase == Phase::Unmatched ==> publication.message is Some
}

/// What the graph says of the type of a topic: a type, an error, or nothing
/// yet.
pub open spec fn discovered(
    topic: Seq<char>,
    types: Option<Seq<String>>,
    deadline: u64,
    now: u64,
) -> Option<Result<Seq<char>, Seq<char>>> {
    match types {
        Some(types) => Some(
            if types.len() != 1 {
                Err("topic has multiple message types; a unique type is required"@)
            } else {
                Ok(types[0]@)
            },
        ),
        None => if now >= deadline {
            Some(
                Err(
                    "topic "@ + topic
                        + " has no unique advertised message type; pass the message type explicitly"@,
                ),
            )
        } else {
            None
        },
    }
}

/// Takes in what the graph says of the type of a topic.
pub fn discover(topic: &str, types: Option<Vec<String>>, deadline: u64, now: u64) -> (result: Option<
    Result<String, String>,
>)
    ensures
        match discovered(
            topic@,
            match types {
                Some(types) => Some(types@),
                None => None,
            },
            deadline,
            now,
        ) {
            None => result is None,
            Some(Ok(kind)) => result is Some && result->Some_0 is Ok && result->Some_0->Ok_0@
                == kind,
            Some(Err(error)) => result is Some && result->Some_0 is Err && result->Some_0->Err_0@
                == error,
        },
{
    match types {
        Some(types) => {
            if types.len() != 1 {
                return Some(
                    Err(
                        "topic has multiple message types; a unique type is required".to_owned(),
                    ),
                );
            }
            Some(Ok(types[0].clone()))
        },
        None => {
            if now >= deadline {
                let mut text = combine("topic ", topic);
                text.append(
                    " has no unique advertised message type; pass the message type explicitly",
                );
                return Some(Err(text));
            }
            None
        },
    }
}

/// The publication at its end, with an error.
pub open spec fn failing(publication: PublicationView, error: Seq<char>) -> (
    PublicationView,
    ActionView,
) {
    (PublicationView { phase: Phase::Over, ..publication }, ActionView::Fail(error))
}

/// The publication with a type, for which a message is made.
pub open spec fn resolving(publication: PublicationView, kind: Seq<char>) -> (
    PublicationView,
    ActionView,
) {
    (
        PublicationView { phase: Phase::Making, kind, ..publication },
        ActionView::Make(kind),
    )
}

/// The publication and the action after a reply.
pub open spec fn advanced(publication: PublicationView, reply: Reply, now: u64) -> (
    PublicationView,
    ActionView,
) {
    match reply {
        Reply::Opened(result) => match result {
            Err(error) => failing(publication, error@),
            Ok(_) => match publication.requested {
                Some(kind) => resolving(publication, kind),
                None => (
                    PublicationView {
                        phase: Phase::Discovering,
                        deadline: (now + DISCOVERY) as u64,
                        ..publication
                    },
                    ActionView::ReadGraph,
                ),
            },
        },
        Reply::Types(result) => match result {
            Err(error) => failing(publication, error@),
            Ok(types) => match discovered(
                publication.topic,
                match types {
                    Some(types) => Some(types@),
                    None => None,
                },
                publication.deadline,
                now,
            ) {
                Some(Ok(kind)) => resolving(publication, kind),
                Some(Err(error)) => failing(publication, error),
                None => (
                    PublicationView { phase: Phase::Undiscovered, ..publication },
                    ActionView::Spin,
                ),
            },
        },
        Reply::Made(result) => match result {
            Err(error) => failing(publication, error@),
            Ok(blank) => match json::decoded_message(blank@, publication.value, None) {
                Err(error) => failing(publication, error),
                Ok(message) => (
                    PublicationView {
                        phase: Phase::Creating,
                        message: Some(message),
                        ..publication
                    },
                    ActionView::Create(publication.kind),
                ),
            },
        },
        Reply::Created(result) => match result {
            Err(error) => failing(
                publication,
                error@
                    + " (message packages are resolved from the database server's AMENT_PREFIX_PATH; start the server with the ROS environment sourced)"@,
            ),
            Ok(_) => (
                PublicationView {
                    phase: Phase::Matching,
                    deadline: (now + MATCHING) as u64,
                    ..publication
                },
                ActionView::CountSubscriptions,
            ),
        },
        Reply::Matched(result) => match result {
            Err(error) => failing(publication, error@),
            Ok(count) => if count > 0 || now >= publication.deadline {
                (
                    PublicationView { phase: Phase::Sending, message: None, ..publication },
                    ActionView::Send(publication.message->Some_0),
                )
            } else {
                (
                    PublicationView { phase: Phase::Unmatched, ..publication },
                    ActionView::Spin,
                )
            },
        },
        Reply::Sent(result) => match result {
            Err(error) => failing(publication, error@),
            Ok(_) => (
                PublicationView {
                    phase: Phase::Flushing,
                    deadline: (now + FLUSH) as u64,
                    ..publication
                },
                ActionView::Spin,
            ),
        },
        Reply::Spun(result) => match result {
            Err(error) => failing(publication, error@),
            Ok(_) => if publication.phase == Phase::Undiscovered {
                (
                    PublicationView { phase: Phase::Discovering, ..publication },
                    ActionView::ReadGraph,
                )
            } else if publication.phase == Phase::Unmatched {
                (
                    PublicationView { phase: Phase::Matching, ..publication },
                    ActionView::CountSubscriptions,
                )
            } else if now < publication.deadline {
                (publication, ActionView::Spin)
            } else {
                (
                    PublicationView { phase: Phase::Over, ..publication },
                    ActionView::Done(publication.kind),
                )
            },
        },
    }
}

impl Publication {
    /// The message is there while it is needed.
    pub open spec fn well_formed(&self) -> bool {
        holds_message(self@)
    }

    /// Starts a publication. Its type is discovered where it is not given. A
    /// topic that is not a fully qualified ROS name is rejected before anything
    /// is asked of ROS.
    pub fn start(topic: &str, message_type: Option<&str>, value: &Json) -> (result: (
        Publication,
        Action,
    ))
        ensures
            result.0.well_formed(),
            result.0@ == (PublicationView {
                topic: topic@,
                requested: match message_type {
                    Some(kind) => Some(kind@),
                    None => None,
                },
                value: value@,
                phase: if valid_topic(topic@) {
                    Phase::Opening
                } else {
                    Phase::Over
                },
                kind: Seq::empty(),
                message: None,
                deadline: 0,
            }),
            result.1 is Open <==> valid_topic(topic@),
            result.1 is Open || result.1 is Fail,
            result.1 is Fail ==> result.1->Fail_0@ == (if topic@.len() == 0 || topic@[0] != '/' {
                "topic must be a fully qualified ROS name starting with '/'"@
            } else {
                "topic must contain nonempty ROS name segments (letters, digits, underscores; no leading digits)"@
            }),
    {
        let requested = match message_type {
            Some(kind) => Some(kind.to_owned()),
            None => None,
        };
        let mut publication = Publication {
            topic: topic.to_owned(),
            requested,
            value: value.copy(),
            phase: Phase::Opening,
            kind: String::new(),
            message: None,
            deadline: 0,
        };
        match naming::validate_topic(topic) {
            Ok(_) => (publication, Action::Open),
            Err(error) => {
                publication.phase = Phase::Over;
                (publication, Action::Fail(error.to_owned()))
            },
        }
    }

    fn fail(&mut self, error: String) -> (action: Action)
        requires
            old(self).well_formed(),
        ensures
            final(self).well_formed(),
            (final(self)@, action@) == failing(old(self)@, error@),
    {
        self.phase = Phase::Over;
        Action::Fail(error)
    }

    fn resolve(&mut self, kind: String) -> (action: Action)
        requires
            old(self).well_formed(),
        ensures
            final(self).well_formed(),
            (final(self)@, action@) == resolving(old(self)@, kind@),
    {
        self.phase = Phase::Making;
        self.kind = kind.clone();
        Action::Make(kind)
    }

    /// Whether a reply is one that the publication waits for.
    pub fn awaits(&self, reply: &Reply) -> (result: bool)
        ensures
            result == awaited(self@.phase, *reply),
    {
        match (self.phase, reply) {
            (Phase::Opening, Reply::Opened(_)) => true,
            (Phase::Discovering, Reply::Types(_)) => true,
            (Phase::Undiscovered, Reply::Spun(_)) => true,
            (Phase::Making, Reply::Made(_)) => true,
            (Phase::Creating, Reply::Created(_)) => true,
            (Phase::Matching, Reply::Matched(_)) => true,
            (Phase::Unmatched, Reply::Spun(_)) => true,
            (Phase::Sending, Reply::Sent(_)) => true,
            (Phase::Flushing, Reply::Spun(_)) => true,
            _ => false,
        }
    }

    /// Takes in what came of the last action, and decides on the next.
    pub fn run(&mut self, reply: Reply, now: u64) -> (action: Action)
        requires
            old(self).well_formed(),
            awaited(old(self)@.phase, reply),
            now <= LATEST,
        ensures
            final(self).well_formed(),
            (final(self)@, action@) == advanced(old(self)@, reply, now),
    {
        match reply {
            Reply::Opened(Err(error)) => self.fail(error),
            Reply::Opened(Ok(_)) => {
                let requested = match &self.requested {
                    Some(kind) => Some(kind.clone()),
                    None => None,
                };
                match requested {
                    Some(kind) => self.resolve(kind),
                    None => {
                        self.phase = Phase::Discovering;
                        self.deadline = now + DISCOVERY;
                        Action::ReadGraph
                    },
                }
            },
            Reply::Types(Err(error)) => self.fail(error),
            Reply::Types(Ok(types)) => {
                match discover(self.topic.as_str(), types, self.deadline, now) {
                    Some(Ok(kind)) => self.resolve(kind),
                    Some(Err(error)) => self.fail(error),
                    None => {
                        self.phase = Phase::Undiscovered;
                        Action::Spin
                    },
                }
            },
            Reply::Made(Err(error)) => self.fail(error),
            Reply::Made(Ok(blank)) => {
                let mut message = blank;
                match json::decode(&mut message, &self.value) {
                    Err(error) => self.fail(error),
                    Ok(_) => {
                        self.phase = Phase::Creating;
                        self.message = Some(message);
                        Action::Create(self.kind.clone())
                    },
                }
            },
            Reply::Created(Err(error)) => {
                let mut text = error;
                text.append(
                    " (message packages are resolved from the database server's AMENT_PREFIX_PATH; start the server with the ROS environment sourced)",
                );
                self.fail(text)
            },
            Reply::Created(Ok(_)) => {
                self.phase = Phase::Matching;
                self.deadline = now + MATCHING;
                Action::CountSubscriptions
            },
            Reply::Matched(Err(error)) => self.fail(error),
            Reply::Matched(Ok(count)) => {
                if count > 0 || now >= self.deadline {
                    self.phase = Phase::Sending;
                    let message = self.message.take();
                    Action::Send(message.unwrap())
                } else {
                    self.phase = Phase::Unmatched;
                    Action::Spin
                }
            },
            Reply::Sent(Err(error)) => self.fail(error),
            Reply::Sent(Ok(_)) => {
                self.phase = Phase::Flushing;
                self.deadline = now + FLUSH;
                Action::Spin
            },
            Reply::Spun(Err(error)) => self.fail(error),
            Reply::Spun(Ok(_)) => {
                if self.phase == Phase::Undiscovered {
                    self.phase = Phase::Discovering;
                    Action::ReadGraph
                } else if self.phase == Phase::Unmatched {
                    self.phase = Phase::Matching;
                    Action::CountSubscriptions
                } else if now < self.deadline {
                    Action::Spin
                } else {
                    self.phase = Phase::Over;
                    Action::Done(self.kind.clone())
                }
            },
        }
    }
}

/// Says that a publication has failed.
pub fn failure(topic: &str, error: &str) -> (text: String)
    ensures
        text@ == "publish to "@ + topic@ + " failed: "@ + error@,
{
    let mut text = combine("publish to ", topic);
    text.append(" failed: ");
    text.append(error);
    text
}

} // verus!
