//! Delivery of ROS messages as notifications.
//!
//! A session decides; its caller talks to ROS and to the database. Messages
//! wait in a bounded queue until they are delivered in batches.
use vstd::prelude::*;
use vstd::string::*;

use crate::message::Message;
use crate::message::MessageView;
use crate::naming;
use crate::sql::{Argument, Statement};
use crate::sql::{statement_views, ArgumentView, StatementView};
use crate::text::{byte_len, combine, render_integer};
use crate::text::{integer_text, utf8_len};
use crate::time::LATEST;

use json::payload;
use json::{encodable_message, emit, payload_pieces, payload_text, LIMIT};

pub mod content;
pub mod fate;
pub mod json;
pub mod laws;
pub mod number;
pub mod reading;
pub mod refusals;
pub mod run;
pub mod turns;

verus! {

/// The size of a name in PostgreSQL, with the byte that ends it.
pub const NAMEDATALEN: usize = 64;

/// How many payloads wait for delivery.
pub const QUEUE: usize = 256;

/// How long the session waits before it reads the graph again.
pub const DISCOVERY: u64 = 1000;

/// How long the session waits before it reports drops again.
pub const REPORT: u64 = 1000;

/// Checks that `topic` is a fully qualified ROS name that PostgreSQL accepts as
/// a notification channel.
pub fn validate_topic(topic: &str) -> (result: Result<(), &'static str>)
    ensures
        result is Ok <==> utf8_len(topic@) < NAMEDATALEN && naming::valid_topic(topic@),
        utf8_len(topic@) <= 63 ==> (result is Ok <==> naming::valid_topic(topic@)),
        utf8_len(topic@) > 63 ==> result is Err,
        result is Err ==> result->Err_0@ == (if utf8_len(topic@) >= NAMEDATALEN {
            "topic exceeds PostgreSQL's 63-byte notification channel limit"@
        } else if topic@.len() == 0 || topic@[0] != '/' {
            "topic must be a fully qualified ROS name starting with '/'"@
        } else {
            "topic must contain nonempty ROS name segments (letters, digits, underscores; no leading digits)"@
        }),
{
    if byte_len(topic) >= NAMEDATALEN {
        return Err("topic exceeds PostgreSQL's 63-byte notification channel limit");
    }
    naming::validate_topic(topic)
}

/// Checks that a subscription is called where it can commit: by a top-level
/// `CALL`, outside a transaction block.
pub fn check_call(call: bool, atomic: bool) -> (result: Result<(), &'static str>)
    ensures
        result is Ok <==> call && !atomic,
        result is Err ==> result->Err_0@
            == "subscribe must be invoked with a top-level CALL outside a transaction block"@,
{
    if !call || atomic {
        return Err("subscribe must be invoked with a top-level CALL outside a transaction block");
    }
    Ok(())
}

/// One subscription.
pub struct Session {
    pub topic: String,
    /// The message type, once there is a subscription.
    pub message_type: Option<String>,
    /// The number of the next message.
    pub sequence: u64,
    /// The payloads that wait for delivery, and the errors of messages that
    /// could not be encoded.
    pub queue: Vec<Result<String, &'static str>>,
    /// How many messages found the queue full since the last report.
    pub dropped: u64,
    pub next_discovery: u64,
    pub next_report: u64,
    /// How many messages could not be encoded since the last report.
    pub encoding_errors: u64,
    pub last_encoding_error: Option<&'static str>,
}

/// The mathematical content of a [`Session`].
#[verifier::ext_equal]
pub struct SessionView {
    pub topic: Seq<char>,
    pub message_type: Option<Seq<char>>,
    pub sequence: u64,
    pub queue: Seq<Result<Seq<char>, Seq<char>>>,
    pub dropped: u64,
    pub next_discovery: u64,
    pub next_report: u64,
    pub encoding_errors: u64,
    pub last_encoding_error: Option<Seq<char>>,
}

/// The content of a payload or an error.
pub open spec fn item_view(item: Result<String, &'static str>) -> Result<Seq<char>, Seq<char>> {
    match item {
        Ok(text) => Ok(text@),
        Err(error) => Err(error@),
    }
}

/// The contents of payloads and errors.
pub open spec fn item_views(items: Seq<Result<String, &'static str>>) -> Seq<
    Result<Seq<char>, Seq<char>>,
> {
    items.map_values(|item: Result<String, &'static str>| item_view(item))
}

impl View for Session {
    type V = SessionView;

    open spec fn view(&self) -> SessionView {
        SessionView {
            topic: self.topic@,
            message_type: crate::sql::text_view(self.message_type),
            sequence: self.sequence,
            queue: item_views(self.queue@),
            dropped: self.dropped,
            next_discovery: self.next_discovery,
            next_report: self.next_report,
            encoding_errors: self.encoding_errors,
            last_encoding_error: match self.last_encoding_error {
                Some(error) => Some(error@),
                None => None,
            },
        }
    }
}

/// The number after `n`, or zero after the last.
pub open spec fn next_number(n: u64) -> u64 {
    if n == u64::MAX {
        0
    } else {
        (n + 1) as u64
    }
}

fn after(n: u64) -> (next: u64)
    ensures
        next == next_number(n),
{
    if n == 18446744073709551615 {
        0
    } else {
        n + 1
    }
}

/// The payload of a message, or the error that its encoding ends with.
pub open spec fn encoded(
    topic: Seq<char>,
    message_type: Seq<char>,
    sequence: nat,
    message: MessageView,
) -> Result<Seq<char>, Seq<char>> {
    if encodable_message(message, 0) && utf8_len(
        payload_text(topic, message_type, sequence, message),
    ) <= LIMIT {
        Ok(payload_text(topic, message_type, sequence, message))
    } else {
        Err(
            emit(
                Seq::empty(),
                payload_pieces(topic, message_type, sequence, message),
            ).1->Some_0,
        )
    }
}

/// The session after a message has come. The message is encoded with its
/// number; where the queue is full, it is dropped.
pub open spec fn received(session: SessionView, message: MessageView) -> SessionView {
    let sequence = next_number(session.sequence);
    if session.queue.len() < QUEUE {
        SessionView {
            sequence,
            queue: session.queue.push(
                encoded(
                    session.topic,
                    session.message_type->Some_0,
                    session.sequence as nat,
                    message,
                ),
            ),
            ..session
        }
    } else {
        SessionView { sequence, dropped: next_number(session.dropped), ..session }
    }
}

/// What the graph says of the type of the topic.
pub open spec fn unique_type(types: Option<Seq<String>>) -> Result<Option<Seq<char>>, Seq<char>> {
    match types {
        None => Ok(None),
        Some(types) => if types.len() != 1 {
            Err("topic has multiple message types; a unique type is required"@)
        } else {
            Ok(Some(types[0]@))
        },
    }
}

/// The statement that sends a notification.
pub open spec fn notify_statement(topic: Seq<char>, payload: Seq<char>) -> StatementView {
    StatementView {
        sql: "SELECT pg_catalog.pg_notify($1, $2)"@,
        arguments: seq![ArgumentView::Text(Some(topic)), ArgumentView::Text(Some(payload))],
    }
}

/// The statements that deliver what has waited, in order.
pub open spec fn notifications(
    topic: Seq<char>,
    queue: Seq<Result<Seq<char>, Seq<char>>>,
) -> Seq<StatementView>
    decreases queue.len(),
{
    if queue.len() == 0 {
        Seq::empty()
    } else {
        let before = notifications(topic, queue.drop_last());
        match queue.last() {
            Ok(payload) => before.push(notify_statement(topic, payload)),
            Err(_) => before,
        }
    }
}

/// The count of errors and the last of them, after those that have waited.
pub open spec fn counted(
    count: u64,
    last: Option<Seq<char>>,
    queue: Seq<Result<Seq<char>, Seq<char>>>,
) -> (u64, Option<Seq<char>>)
    decreases queue.len(),
{
    if queue.len() == 0 {
        (count, last)
    } else {
        let (before, error) = counted(count, last, queue.drop_last());
        match queue.last() {
            Ok(_) => (before, error),
            Err(error) => (next_number(before), Some(error)),
        }
    }
}

/// The session after everything that has waited was taken from the queue.
pub open spec fn delivered(session: SessionView) -> SessionView {
    let (encoding_errors, last_encoding_error) = counted(
        session.encoding_errors,
        session.last_encoding_error,
        session.queue,
    );
    SessionView { queue: Seq::empty(), encoding_errors, last_encoding_error, ..session }
}

/// The warning of what was dropped since the last report, where it is time for
/// one and something was.
pub open spec fn report_text(session: SessionView, now: u64) -> Option<Seq<char>> {
    if now >= session.next_report && (session.dropped > 0 || session.encoding_errors > 0) {
        Some(
            "pg_ros2 topic="@ + session.topic + " queue_drops="@ + integer_text(
                session.dropped as int,
            ) + " encoding_drops="@ + integer_text(session.encoding_errors as int)
                + " last_error="@ + (match session.last_encoding_error {
                Some(error) => error,
                None => "none"@,
            }),
        )
    } else {
        None
    }
}

/// The session after a report, where it is time for one.
pub open spec fn reported(session: SessionView, now: u64) -> SessionView {
    if now >= session.next_report {
        SessionView {
            dropped: 0,
            encoding_errors: 0,
            last_encoding_error: None,
            next_report: (now + REPORT) as u64,
            ..session
        }
    } else {
        session
    }
}

impl Session {
    /// The queue is within its bound, and every payload within the limit.
    pub open spec fn well_formed(&self) -> bool {
        within_bounds(self@)
    }

    /// A session without a subscription.
    pub fn new(topic: &str, now: u64) -> (session: Session)
        ensures
            session.well_formed(),
            session@ == (SessionView {
                topic: topic@,
                message_type: None,
                sequence: 0,
                queue: Seq::empty(),
                dropped: 0,
                next_discovery: now,
                next_report: now,
                encoding_errors: 0,
                last_encoding_error: None,
            }),
    {
        let session = Session {
            topic: topic.to_owned(),
            message_type: None,
            sequence: 0,
            queue: Vec::new(),
            dropped: 0,
            next_discovery: now,
            next_report: now,
            encoding_errors: 0,
            last_encoding_error: None,
        };
        assert(session@.queue =~= Seq::empty());
        session
    }

    /// Whether it is time to read the graph: not once there is a subscription.
    pub fn discovers(&self, now: u64) -> (result: bool)
        ensures
            result == (self@.message_type is None && now >= self@.next_discovery),
    {
        self.message_type.is_none() && now >= self.next_discovery
    }

    /// Takes in what the graph says of the type of the topic: gives back the
    /// type to subscribe to, where there is one.
    pub fn discovered(&mut self, types: Option<Vec<String>>, now: u64) -> (result: Result<
        Option<String>,
        String,
    >)
        requires
            old(self).well_formed(),
            now <= LATEST,
        ensures
            final(self).well_formed(),
            final(self)@ == (SessionView {
                next_discovery: (now + DISCOVERY) as u64,
                ..old(self)@
            }),
            final(self)@.next_discovery == now + 1000,
            match unique_type(
                match types {
                    Some(types) => Some(types@),
                    None => None,
                },
            ) {
                Ok(Some(kind)) => result matches Ok(Some(found)) && found@ == kind,
                Ok(None) => result matches Ok(None),
                Err(error) => result is Err && result->Err_0@ == error,
            },
    {
        self.next_discovery = now + DISCOVERY;
        match types {
            None => Ok(None),
            Some(types) => {
                if types.len() != 1 {
                    return Err(
                        "topic has multiple message types; a unique type is required".to_owned(),
                    );
                }
                Ok(Some(types[0].clone()))
            },
        }
    }

    /// Notes that there is a subscription of a type, which stays fixed. Gives
    /// back what is to be told of it.
    pub fn subscribed(&mut self, message_type: &str) -> (notice: String)
        requires
            old(self).well_formed(),
        ensures
            final(self).well_formed(),
            final(self)@ == (SessionView { message_type: Some(message_type@), ..old(self)@ }),
            notice@ == "subscribed to "@ + old(self)@.topic + "; cancel this CALL to stop"@,
    {
        self.message_type = Some(message_type.to_owned());
        let mut notice = combine("subscribed to ", self.topic.as_str());
        notice.append("; cancel this CALL to stop");
        notice
    }

    /// Takes in a message.
    pub fn on_message(&mut self, message: &Message)
        requires
            old(self).well_formed(),
            old(self)@.message_type is Some,
        ensures
            final(self).well_formed(),
            final(self)@ == received(old(self)@, message@),
    {
        let sequence: u64 = self.sequence;
        self.sequence = after(sequence);
        let kind: &String = self.message_type.as_ref().unwrap();
        let encoding = payload(self.topic.as_str(), kind.as_str(), sequence, message);
        if self.queue.len() < QUEUE {
            let ghost before = self@.queue;
            self.queue.push(encoding);
            assert(self@.queue =~= before.push(item_view(encoding)));
        } else {
            self.dropped = after(self.dropped);
        }
    }

    /// Takes out everything that has waited, and gives back the statements that
    /// deliver it. They are committed together, where there are any.
    pub fn deliver(&mut self) -> (statements: Vec<Statement>)
        requires
            old(self).well_formed(),
        ensures
            final(self).well_formed(),
            final(self)@ == delivered(old(self)@),
            statement_views(statements@) == notifications(old(self)@.topic, old(self)@.queue),
    {
        let mut waiting: Vec<Result<String, &'static str>> = Vec::new();
        std::mem::swap(&mut self.queue, &mut waiting);
        let ghost start = *old(self);
        let ghost views = item_views(waiting@);
        let mut statements: Vec<Statement> = Vec::new();
        let mut i: usize = 0;
        assert(views.take(0) =~= Seq::empty());
        assert(statement_views(statements@) =~= Seq::empty());
        assert(self@.queue =~= Seq::empty());
        while i < waiting.len()
            invariant
                i <= waiting@.len(),
                views == item_views(waiting@),
                self@ == (SessionView {
                    queue: Seq::empty(),
                    encoding_errors: self@.encoding_errors,
                    last_encoding_error: self@.last_encoding_error,
                    ..start@
                }),
                (self@.encoding_errors, self@.last_encoding_error) == counted(
                    start@.encoding_errors,
                    start@.last_encoding_error,
                    views.take(i as int),
                ),
                statement_views(statements@) == notifications(
                    start@.topic,
                    views.take(i as int),
                ),
            decreases waiting@.len() - i,
        {
            proof {
                assert(views.take(i + 1).drop_last() =~= views.take(i as int));
                assert(views.take(i + 1).last() == item_view(waiting@[i as int]));
            }
            match &waiting[i] {
                Ok(text) => {
                    let ghost before = statement_views(statements@);
                    let statement = Statement {
                        sql: "SELECT pg_catalog.pg_notify($1, $2)".to_owned(),
                        arguments: vec![
                            Argument::Text(Some(self.topic.clone())),
                            Argument::Text(Some(text.clone())),
                        ],
                    };
                    proof {
                        assert(statement@.arguments =~= seq![
                            ArgumentView::Text(Some(self@.topic)),
                            ArgumentView::Text(Some(text@)),
                        ]);
                    }
                    statements.push(statement);
                    assert(statement_views(statements@) =~= before.push(statement@));
                },
                Err(error) => {
                    self.encoding_errors = after(self.encoding_errors);
                    self.last_encoding_error = Some(*error);
                },
            }
            i += 1;
        }
        assert(views.take(i as int) =~= views);
        statements
    }

    /// Reports what was dropped, where it is time for it and something was.
    pub fn report(&mut self, now: u64) -> (warning: Option<String>)
        requires
            old(self).well_formed(),
            now <= LATEST,
        ensures
            final(self).well_formed(),
            final(self)@ == reported(old(self)@, now),
            crate::sql::text_view(warning) == report_text(old(self)@, now),
    {
        if now < self.next_report {
            return None;
        }
        let mut warning: Option<String> = None;
        if self.dropped > 0 || self.encoding_errors > 0 {
            let mut text = combine("pg_ros2 topic=", self.topic.as_str());
            text.append(" queue_drops=");
            text.append(render_integer(self.dropped as i128).as_str());
            text.append(" encoding_drops=");
            text.append(render_integer(self.encoding_errors as i128).as_str());
            text.append(" last_error=");
            match self.last_encoding_error {
                Some(error) => text.append(error),
                None => text.append("none"),
            }
            warning = Some(text);
        }
        self.dropped = 0;
        self.encoding_errors = 0;
        self.last_encoding_error = None;
        self.next_report = now + REPORT;
        warning
    }
}

/// Whether the queue is within its bound, and every payload within the limit.
pub open spec fn within_bounds(session: SessionView) -> bool {
    &&& session.queue.len() <= QUEUE
    &&& forall|i: int|
        0 <= i < session.queue.len() ==> (#[trigger] session.queue[i] matches Ok(text) ==> utf8_len(
            text,
        ) <= LIMIT)
}

/// Says that a subscription has failed.
pub fn failure(topic: &str, error: &str) -> (text: String)
    ensures
        text@ == "subscribe failed for "@ + topic@ + ": "@ + error@,
{
    let mut text = combine("subscribe failed for ", topic);
    text.append(": ");
    text.append(error);
    text
}

} // verus!
