//! The protocol of one goal: what was asked of the action server, and what has
//! come back.
use vstd::prelude::*;
use vstd::string::*;

use crate::json::{Entry, Json};
use crate::json::{EntryView, JsonView};
use crate::text::combine;

verus! {

/// The greatest number of elements of a feedback sequence that is kept.
pub const FEEDBACK_LIMIT: usize = 16384;

/// Something that was learned of a goal.
pub enum Event {
    /// Whether the server accepted the goal.
    Accepted(bool),
    /// The status that the server publishes.
    Status(i8),
    Feedback(Json),
    /// The final status and the result.
    Result(i8, Json),
    /// The answer to a request to cancel, and whether it names the goal.
    Cancel(i8, bool),
}

/// The mathematical content of an [`Event`].
pub enum EventView {
    Accepted(bool),
    Status(i8),
    Feedback(JsonView),
    Result(i8, JsonView),
    Cancel(i8, bool),
}

impl View for Event {
    type V = EventView;

    open spec fn view(&self) -> EventView {
        match self {
            Event::Accepted(accepted) => EventView::Accepted(*accepted),
            Event::Status(code) => EventView::Status(*code),
            Event::Feedback(value) => EventView::Feedback(value@),
            Event::Result(code, value) => EventView::Result(*code, value@),
            Event::Cancel(code, named) => EventView::Cancel(*code, *named),
        }
    }
}

/// The contents of events.
pub open spec fn event_views(events: Seq<Event>) -> Seq<EventView> {
    events.map_values(|event: Event| event@)
}

/// The answer to a request to cancel.
pub struct CancelReply {
    pub return_code: i8,
    /// The identifiers of the goals that are being canceled.
    pub canceling: Vec<Vec<u8>>,
}

/// The answer to a request for the result.
pub struct ResultReply {
    pub status: i8,
    pub sequence: Vec<i32>,
}

/// What has come back since the last look: nothing, an answer, or an error.
pub struct Replies {
    pub send: Result<Option<bool>, String>,
    pub cancel: Result<Option<CancelReply>, String>,
    pub result: Result<Option<ResultReply>, String>,
}

/// The requests of one goal that are under way, and the latest telemetry.
///
/// Telemetry is coalesced to one value of each kind per goal, rather than an
/// unbounded queue.
pub struct Transport {
    pub uuid: Vec<u8>,
    pub send_pending: bool,
    pub result_pending: bool,
    pub cancel_pending: bool,
    pub status: Option<i8>,
    pub feedback: Option<Json>,
}

/// The mathematical content of a [`Transport`].
pub struct TransportView {
    pub uuid: Seq<u8>,
    pub send_pending: bool,
    pub result_pending: bool,
    pub cancel_pending: bool,
    pub status: Option<i8>,
    pub feedback: Option<JsonView>,
}

impl View for Transport {
    type V = TransportView;

    open spec fn view(&self) -> TransportView {
        TransportView {
            uuid: self.uuid@,
            send_pending: self.send_pending,
            result_pending: self.result_pending,
            cancel_pending: self.cancel_pending,
            status: self.status,
            feedback: crate::sql::json_view(self.feedback),
        }
    }
}

/// The JSON object that holds a sequence of integers.
pub open spec fn sequence_tree(values: Seq<i32>) -> JsonView {
    JsonView::Object(
        seq![
            EntryView {
                key: "sequence"@,
                value: JsonView::Array(
                    values.map_values(|value: i32| JsonView::Integer(value as int)),
                ),
            },
        ],
    )
}

/// Wraps a sequence of integers in a JSON object.
pub fn sequence_json(values: &Vec<i32>) -> (result: Json)
    ensures
        result@ == sequence_tree(values@),
{
    let mut items: Vec<Json> = Vec::new();
    let mut i: usize = 0;
    while i < values.len()
        invariant
            i <= values@.len(),
            items@.len() == i,
            forall|k: int|
                0 <= k < i ==> (#[trigger] items@[k])@ == JsonView::Integer(values@[k] as int),
        decreases values@.len() - i,
    {
        items.push(Json::Signed(values[i] as i64));
        i += 1;
    }
    let array = Json::Array(items);
    let entries: Vec<Entry> = vec![Entry { key: "sequence".to_owned(), value: array }];
    let result = Json::Object(entries);
    proof {
        array.lemma_view();
        assert(crate::json::views(items@) =~= values@.map_values(
            |value: i32| JsonView::Integer(value as int),
        ));
        result.lemma_view();
        assert(crate::json::entry_views(entries@) =~= sequence_tree(values@)->Object_0);
    }
    result
}

/// Whether two identifiers are equal.
pub fn same_bytes(a: &Vec<u8>, b: &Vec<u8>) -> (result: bool)
    ensures
        result == (a@ == b@),
{
    if a.len() != b.len() {
        return false;
    }
    let mut i: usize = 0;
    while i < a.len()
        invariant
            i <= a@.len(),
            a@.len() == b@.len(),
            forall|k: int| 0 <= k < i ==> a@[k] == b@[k],
        decreases a@.len() - i,
    {
        if a[i] != b[i] {
            return false;
        }
        i += 1;
    }
    assert(a@ =~= b@);
    true
}

/// Whether some identifier in a list is the given one.
pub open spec fn names(list: Seq<Vec<u8>>, uuid: Seq<u8>) -> bool {
    exists|i: int| 0 <= i < list.len() && (#[trigger] list[i])@ == uuid
}

fn contains(list: &Vec<Vec<u8>>, uuid: &Vec<u8>) -> (result: bool)
    ensures
        result == names(list@, uuid@),
{
    let mut i: usize = 0;
    while i < list.len()
        invariant
            i <= list@.len(),
            forall|k: int| 0 <= k < i ==> (#[trigger] list@[k])@ != uuid@,
        decreases list@.len() - i,
    {
        if same_bytes(&list[i], uuid) {
            return true;
        }
        i += 1;
    }
    false
}

/// The name of an endpoint of an action.
pub open spec fn endpoint_name(action: Seq<char>, suffix: Seq<char>) -> Seq<char> {
    action + "/_action/"@ + suffix
}

/// The name of an endpoint of an action: `feedback`, `status`, `send_goal`,
/// `get_result` or `cancel_goal`.
pub fn endpoint(action: &str, suffix: &str) -> (name: String)
    ensures
        name@ == endpoint_name(action@, suffix@),
        name@ == action@ + "/_action/"@ + suffix@,
{
    let mut name = combine(action, "/_action/");
    name.append(suffix);
    name
}

/// The status of a goal in a list of statuses: the last one that names it.
pub open spec fn last_status(list: Seq<(Vec<u8>, i8)>, uuid: Seq<u8>) -> Option<i8>
    decreases list.len(),
{
    if list.len() == 0 {
        None
    } else if list.last().0@ == uuid {
        Some(list.last().1)
    } else {
        last_status(list.drop_last(), uuid)
    }
}

/// A goal of which nothing was asked.
pub open spec fn opened(uuid: Seq<u8>) -> TransportView {
    TransportView {
        uuid,
        send_pending: false,
        result_pending: false,
        cancel_pending: false,
        status: None,
        feedback: None,
    }
}

/// What becomes of a goal when a feedback message is delivered: it is kept where
/// it is for this goal and not too long.
pub open spec fn with_feedback(
    transport: TransportView,
    uuid: Seq<u8>,
    sequence: Seq<i32>,
) -> TransportView {
    if uuid == transport.uuid && sequence.len() <= FEEDBACK_LIMIT {
        TransportView { feedback: Some(sequence_tree(sequence)), ..transport }
    } else {
        transport
    }
}

/// What becomes of a goal when a list of statuses is delivered: the last one that
/// names it is kept.
pub open spec fn with_status(
    transport: TransportView,
    list: Seq<(Vec<u8>, i8)>,
) -> TransportView {
    match last_status(list, transport.uuid) {
        Some(code) => TransportView { status: Some(code), ..transport },
        None => transport,
    }
}

/// The events that answers and telemetry give, in the order in which they are
/// told; an error ends the list.
pub open spec fn polled(transport: TransportView, replies: Replies) -> Result<
    Seq<EventView>,
    Seq<char>,
> {
    let sent = reply_of(transport.send_pending, replies.send);
    let canceled = reply_of(transport.cancel_pending, replies.cancel);
    let finished = reply_of(transport.result_pending, replies.result);
    if sent is Err {
        Err(sent->Err_0@)
    } else if canceled is Err {
        Err(canceled->Err_0@)
    } else if finished is Err {
        Err(finished->Err_0@)
    } else {
        Ok(
            told_events(transport, replies) + canceled_events(transport, replies)
                + finished_events(transport, replies),
        )
    }
}

/// The events that the answer to the goal and the telemetry give.
pub open spec fn told_events(transport: TransportView, replies: Replies) -> Seq<EventView> {
    (match reply_of(transport.send_pending, replies.send) {
        Ok(Some(accepted)) => seq![EventView::Accepted(accepted)],
        _ => Seq::empty(),
    }) + (match transport.status {
        Some(code) => seq![EventView::Status(code)],
        None => Seq::empty(),
    }) + (match transport.feedback {
        Some(value) => seq![EventView::Feedback(value)],
        None => Seq::empty(),
    })
}

/// The event that the answer to a request to cancel gives.
pub open spec fn canceled_events(transport: TransportView, replies: Replies) -> Seq<EventView> {
    match reply_of(transport.cancel_pending, replies.cancel) {
        Ok(Some(reply)) => seq![
            EventView::Cancel(reply.return_code, names(reply.canceling@, transport.uuid)),
        ],
        _ => Seq::empty(),
    }
}

/// The event that the answer to a request for the result gives.
pub open spec fn finished_events(transport: TransportView, replies: Replies) -> Seq<EventView> {
    match reply_of(transport.result_pending, replies.result) {
        Ok(Some(reply)) => seq![EventView::Result(reply.status, sequence_tree(reply.sequence@))],
        _ => Seq::empty(),
    }
}

/// An answer to a request that is under way.
pub open spec fn reply_of<T>(pending: bool, reply: Result<Option<T>, String>) -> Result<
    Option<T>,
    String,
> {
    if pending {
        reply
    } else {
        Ok(None)
    }
}

/// Whether a request is still under way.
pub open spec fn still_pending<T>(pending: bool, reply: Result<Option<T>, String>) -> bool {
    pending && !(reply matches Ok(Some(_)))
}

/// What is left under way, and of the telemetry, after the answers were taken
/// in: nothing changes after an error.
pub open spec fn left(transport: TransportView, replies: Replies) -> TransportView {
    if reply_of(transport.send_pending, replies.send) is Err {
        transport
    } else {
        let told = TransportView {
            send_pending: still_pending(transport.send_pending, replies.send),
            status: None,
            feedback: None,
            ..transport
        };
        if reply_of(transport.cancel_pending, replies.cancel) is Err {
            told
        } else {
            TransportView {
                cancel_pending: still_pending(transport.cancel_pending, replies.cancel),
                result_pending: still_pending(transport.result_pending, replies.result),
                ..told
            }
        }
    }
}

impl Transport {
    /// A goal of which nothing was asked.
    pub fn new(uuid: Vec<u8>) -> (transport: Transport)
        ensures
            transport@ == opened(uuid@),
    {
        Transport {
            uuid,
            send_pending: false,
            result_pending: false,
            cancel_pending: false,
            status: None,
            feedback: None,
        }
    }

    /// Takes in a feedback message: the one that counts is the latest for this
    /// goal that is not too long to be kept.
    pub fn on_feedback(&mut self, uuid: &Vec<u8>, sequence: &Vec<i32>)
        ensures
            final(self)@ == with_feedback(old(self)@, uuid@, sequence@),
    {
        if same_bytes(uuid, &self.uuid) {
            if sequence.len() <= FEEDBACK_LIMIT {
                self.feedback = Some(sequence_json(sequence));
            }
        }
    }

    /// Takes in a list of statuses: the one that counts is the last for this
    /// goal.
    pub fn on_status(&mut self, list: &Vec<(Vec<u8>, i8)>)
        ensures
            final(self)@ == with_status(old(self)@, list@),
    {
        let mut i: usize = 0;
        let ghost start = self@;
        while i < list.len()
            invariant
                i <= list@.len(),
                start == old(self)@,
                self@ == with_status(start, list@.take(i as int)),
            decreases list@.len() - i,
        {
            assert(list@.take(i + 1).drop_last() =~= list@.take(i as int));
            if same_bytes(&list[i].0, &self.uuid) {
                self.status = Some(list[i].1);
            }
            i += 1;
        }
        assert(list@.take(i as int) =~= list@);
    }

    /// Notes that the goal was sent.
    pub fn sent(&mut self)
        ensures
            final(self)@ == (TransportView { send_pending: true, ..old(self)@ }),
    {
        self.send_pending = true;
    }

    /// Whether the result can be asked for: no second request while one is under
    /// way.
    pub fn needs_result(&self) -> (ask: bool)
        ensures
            ask == !self@.result_pending,
    {
        !self.result_pending
    }

    /// Notes that the result was asked for.
    pub fn request_result(&mut self)
        ensures
            final(self)@ == (TransportView { result_pending: true, ..old(self)@ }),
    {
        self.result_pending = true;
    }

    /// Whether the goal can be asked to be canceled: no second request while one
    /// is under way.
    pub fn needs_cancel(&self) -> (ask: bool)
        ensures
            ask == !self@.cancel_pending,
    {
        !self.cancel_pending
    }

    /// Notes that the goal was asked to be canceled.
    pub fn cancel(&mut self)
        ensures
            final(self)@ == (TransportView { cancel_pending: true, ..old(self)@ }),
    {
        self.cancel_pending = true;
    }

    /// Turns answers and telemetry into events, in order. An error ends it, and
    /// what was taken in before is gone.
    pub fn poll(&mut self, replies: Replies) -> (result: Result<Vec<Event>, String>)
        ensures
            match polled(old(self)@, replies) {
                Ok(events) => result is Ok && event_views(result->Ok_0@) == events,
                Err(error) => result is Err && result->Err_0@ == error,
            },
            final(self)@ == left(old(self)@, replies),
    {
        let Replies { send, cancel, result } = replies;
        let mut events: Vec<Event> = Vec::new();
        let ghost transport = self@;
        if self.send_pending {
            match send {
                Err(error) => {
                    return Err(error);
                },
                Ok(Some(accepted)) => {
                    events.push(Event::Accepted(accepted));
                    self.send_pending = false;
                },
                Ok(None) => {},
            }
        }
        if let Some(code) = self.status.take() {
            events.push(Event::Status(code));
        }
        if let Some(value) = self.feedback.take() {
            events.push(Event::Feedback(value));
        }
        let ghost told = event_views(events@);
        assert(told =~= told_events(transport, replies));
        if self.cancel_pending {
            match cancel {
                Err(error) => {
                    return Err(error);
                },
                Ok(Some(reply)) => {
                    let named = contains(&reply.canceling, &self.uuid);
                    events.push(Event::Cancel(reply.return_code, named));
                    self.cancel_pending = false;
                },
                Ok(None) => {},
            }
        }
        let ghost canceled = event_views(events@);
        assert(canceled =~= told + canceled_events(transport, replies));
        if self.result_pending {
            match result {
                Err(error) => {
                    return Err(error);
                },
                Ok(Some(reply)) => {
                    events.push(Event::Result(reply.status, sequence_json(&reply.sequence)));
                    self.result_pending = false;
                },
                Ok(None) => {},
            }
        }
        assert(event_views(events@) =~= canceled + finished_events(transport, replies));
        Ok(events)
    }
}

} // verus!
