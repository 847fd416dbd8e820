//! One poll of the parameter services of all peers.
//!
//! A poll decides; its caller talks to ROS. Each look at the poll begins with a
//! tick, which names what to do; what came of it is handed back, until there is
//! nothing more to do for now.
use vstd::prelude::*;
use vstd::string::*;

use super::{value, Parameter, ParameterValue};
use super::{parameter_views, value_of, ParameterView};
use crate::order::{
    contents, dedup, is_strictly_sorted, lemma_strictly_sorted_unique, sort, Item,
};
use crate::text::{characters, combine};
use crate::time::LATEST;

verus! {

/// How long each stage of a poll may take, for all peers together.
pub const STAGE: u64 = 3000;

/// A node, and the names of its parameter services.
pub struct Peer {
    pub name: String,
    pub namespace: String,
    pub list: String,
    pub get: String,
}

/// The mathematical content of a [`Peer`].
pub struct PeerView {
    pub name: Seq<char>,
    pub namespace: Seq<char>,
    pub list: Seq<char>,
    pub get: Seq<char>,
}

impl View for Peer {
    type V = PeerView;

    open spec fn view(&self) -> PeerView {
        PeerView {
            name: self.name@,
            namespace: self.namespace@,
            list: self.list@,
            get: self.get@,
        }
    }
}

/// The contents of peers.
pub open spec fn peer_views(peers: Seq<Peer>) -> Seq<PeerView> {
    peers.map_values(|peer: Peer| peer@)
}

/// A text without the slashes at its end.
pub open spec fn trimmed(text: Seq<char>) -> Seq<char>
    decreases text.len(),
{
    if text.len() > 0 && text.last() == '/' {
        trimmed(text.drop_last())
    } else {
        text
    }
}

/// The peer with a name in a namespace.
pub open spec fn peer_of(node: (Seq<char>, Seq<char>)) -> PeerView {
    PeerView {
        name: node.0,
        namespace: node.1,
        list: trimmed(node.1) + "/"@ + node.0 + "/list_parameters"@,
        get: trimmed(node.1) + "/"@ + node.0 + "/get_parameters"@,
    }
}

/// The items of a list in strict order, each once.
pub open spec fn normalized<T: Item>(list: Seq<T::Content>) -> Seq<T::Content> {
    choose|result: Seq<T::Content>| #[trigger]
        is_strictly_sorted::<T>(result) && result.to_set() == list.to_set()
}

/// Sorts items and leaves out repetitions.
pub fn normalize<T: Item>(items: Vec<T>) -> (result: Vec<T>)
    ensures
        contents(result@) == normalized::<T>(contents(items@)),
        is_strictly_sorted::<T>(contents(result@)),
        contents(result@).to_set() == contents(items@).to_set(),
{
    let ghost all = contents(items@);
    let sorted = sort(items);
    proof {
        let list = contents(sorted@);
        list.to_multiset_ensures();
        all.to_multiset_ensures();
        assert forall|x: T::Content| #[trigger] list.to_set().contains(x) <==> all.to_set().contains(
            x,
        ) by {
            assert(list.contains(x) <==> list.to_multiset().count(x) > 0);
            assert(all.contains(x) <==> all.to_multiset().count(x) > 0);
        }
        assert(list.to_set() =~= all.to_set());
    }
    let result = dedup(sorted);
    proof {
        let list = contents(result@);
        lemma_strictly_sorted_unique::<T>(list, normalized::<T>(all));
    }
    result
}

fn trim(text: &str) -> (result: String)
    ensures
        result@ == trimmed(text@),
{
    let letters = characters(text);
    let mut n: usize = letters.len();
    assert(text@.take(n as int) =~= text@);
    while n > 0 && letters[n - 1] == '/'
        invariant
            n <= letters@.len(),
            letters@ == text@,
            trimmed(text@) == trimmed(text@.take(n as int)),
        decreases n,
    {
        assert(text@.take(n as int).last() == letters@[n - 1]);
        assert(text@.take(n as int).drop_last() =~= text@.take(n - 1));
        n -= 1;
    }
    assert(n > 0 ==> text@.take(n as int).last() == letters@[n - 1]);
    assert(trimmed(text@) == text@.take(n as int));
    text.substring_char(0, n).to_owned()
}

/// The peers among the nodes of the graph: nodes of one name share the address
/// of their services, and count once.
pub fn peers(nodes: Vec<(String, String)>) -> (result: Vec<Peer>)
    ensures
        peer_views(result@) == normalized::<(String, String)>(contents(nodes@)).map_values(
            |node: (Seq<char>, Seq<char>)| peer_of(node),
        ),
{
    let nodes = normalize(nodes);
    let ghost views = contents(nodes@).map_values(|node: (Seq<char>, Seq<char>)| peer_of(node));
    let mut result: Vec<Peer> = Vec::new();
    let mut i: usize = 0;
    while i < nodes.len()
        invariant
            i <= nodes@.len(),
            views == contents(nodes@).map_values(
                |node: (Seq<char>, Seq<char>)| peer_of(node),
            ),
            result@.len() == i,
            forall|k: int| 0 <= k < i ==> (#[trigger] result@[k])@ == views[k],
        decreases nodes@.len() - i,
    {
        let name = &nodes[i].0;
        let namespace = &nodes[i].1;
        let mut prefix = trim(namespace.as_str());
        prefix.append("/");
        prefix.append(name.as_str());
        let list = combine(prefix.as_str(), "/list_parameters");
        let get = combine(prefix.as_str(), "/get_parameters");
        assert(views[i as int] == peer_of((name@, namespace@)));
        result.push(Peer { name: name.clone(), namespace: namespace.clone(), list, get });
        i += 1;
    }
    assert(peer_views(result@) =~= views);
    result
}

/// Whether the services of a node have one of the given name that lists
/// parameters.
pub open spec fn advertised(services: Seq<(String, Vec<String>)>, name: Seq<char>) -> bool {
    exists|i: int|
        0 <= i < services.len() && (#[trigger] services[i]).0@ == name && lists_parameters(
            services[i].1@,
        )
}

/// Whether the type that lists parameters is among types.
pub open spec fn lists_parameters(kinds: Seq<String>) -> bool {
    exists|k: int|
        0 <= k < kinds.len() && (#[trigger] kinds[k])@ == "rcl_interfaces/srv/ListParameters"@
}

/// Whether the services of a node have one of the given name that lists
/// parameters.
pub fn advertises(services: &Vec<(String, Vec<String>)>, name: &String) -> (result: bool)
    ensures
        result == advertised(services@, name@),
{
    let wanted = "rcl_interfaces/srv/ListParameters".to_owned();
    let mut i: usize = 0;
    while i < services.len()
        invariant
            i <= services@.len(),
            wanted@ == "rcl_interfaces/srv/ListParameters"@,
            forall|k: int|
                0 <= k < i ==> !((#[trigger] services@[k]).0@ == name@ && lists_parameters(
                    services@[k].1@,
                )),
        decreases services@.len() - i,
    {
        if services[i].0 == *name {
            let kinds = &services[i].1;
            let mut k: usize = 0;
            while k < kinds.len()
                invariant
                    k <= kinds@.len(),
                    i < services@.len(),
                    *kinds == services@[i as int].1,
                    services@[i as int].0@ == name@,
                    wanted@ == "rcl_interfaces/srv/ListParameters"@,
                    forall|j: int| 0 <= j < k ==> (#[trigger] kinds@[j])@ != wanted@,
                decreases kinds@.len() - k,
            {
                if kinds[k] == wanted {
                    assert(lists_parameters(services@[i as int].1@));
                    return true;
                }
                k += 1;
            }
        }
        i += 1;
    }
    false
}

/// How far a poll has come.
pub enum Stage {
    /// The services must be found.
    Ready,
    /// The names of the parameters of each peer are awaited.
    Listing(Vec<Option<Vec<String>>>),
    /// The values of the parameters of each peer are awaited, for these names.
    Getting(Vec<Option<Vec<ParameterValue>>>, Vec<Vec<String>>),
}

/// The mathematical content of a [`Stage`].
pub enum StageView {
    Ready,
    Listing(Seq<Option<Seq<Seq<char>>>>),
    Getting(Seq<Option<Seq<ParameterValue>>>, Seq<Seq<Seq<char>>>),
}

/// The content of the names of a peer.
pub open spec fn names_view(names: Option<Vec<String>>) -> Option<Seq<Seq<char>>> {
    match names {
        Some(names) => Some(contents(names@)),
        None => None,
    }
}

/// The content of the values of a peer.
pub open spec fn values_view(values: Option<Vec<ParameterValue>>) -> Option<Seq<ParameterValue>> {
    match values {
        Some(values) => Some(values@),
        None => None,
    }
}

/// The contents of the names of peers.
pub open spec fn all_names(names: Seq<Vec<String>>) -> Seq<Seq<Seq<char>>> {
    names.map_values(|list: Vec<String>| contents(list@))
}

impl View for Stage {
    type V = StageView;

    open spec fn view(&self) -> StageView {
        match self {
            Stage::Ready => StageView::Ready,
            Stage::Listing(results) => StageView::Listing(
                results@.map_values(|names: Option<Vec<String>>| names_view(names)),
            ),
            Stage::Getting(results, names) => StageView::Getting(
                results@.map_values(|values: Option<Vec<ParameterValue>>| values_view(values)),
                all_names(names@),
            ),
        }
    }
}

/// One poll. It never waits for a peer.
pub struct Poll {
    pub clients: Vec<Peer>,
    pub stage: Stage,
    pub deadline: u64,
}

/// The mathematical content of a [`Poll`].
pub struct PollView {
    pub clients: Seq<PeerView>,
    pub stage: StageView,
    pub deadline: u64,
}

impl View for Poll {
    type V = PollView;

    open spec fn view(&self) -> PollView {
        PollView {
            clients: peer_views(self.clients@),
            stage: self.stage@,
            deadline: self.deadline,
        }
    }
}

/// What is handed to a poll.
pub enum Input {
    /// The executor has spun.
    Tick,
    /// Whether the services of all peers are there.
    Ready(Result<bool, String>),
    /// The names were asked for.
    ListCalled(Result<(), String>),
    /// What has come back from each peer that has not answered.
    Listed(Vec<Result<Option<Vec<String>>, String>>),
    /// The values were asked for.
    GetCalled(Result<(), String>),
    /// What has come back from each peer that has not answered.
    Got(Vec<Result<Option<Vec<ParameterValue>>, String>>),
}

/// What a poll asks for.
pub enum Output {
    /// Whether the services of all peers are there.
    CheckReady,
    /// A request for the names of each peer.
    CallList,
    /// The answers of the peers that have not answered.
    CollectList,
    /// A request for the values of these parameters of each peer.
    CallGet(Vec<Vec<String>>),
    /// The answers of the peers that have not answered.
    CollectGet,
    /// Nothing, until the next tick.
    Wait,
    /// Nothing any more: these are the parameters.
    Done(Vec<Parameter>),
    /// Nothing any more: the poll has failed.
    Fail(String),
}

/// The mathematical content of an [`Output`].
pub enum OutputView {
    CheckReady,
    CallList,
    CollectList,
    CallGet(Seq<Seq<Seq<char>>>),
    CollectGet,
    Wait,
    Done(Seq<ParameterView>),
    Fail(Seq<char>),
}

impl View for Output {
    type V = OutputView;

    open spec fn view(&self) -> OutputView {
        match self {
            Output::CheckReady => OutputView::CheckReady,
            Output::CallList => OutputView::CallList,
            Output::CollectList => OutputView::CollectList,
            Output::CallGet(names) => OutputView::CallGet(all_names(names@)),
            Output::CollectGet => OutputView::CollectGet,
            Output::Wait => OutputView::Wait,
            Output::Done(parameters) => OutputView::Done(parameter_views(parameters@)),
            Output::Fail(error) => OutputView::Fail(error@),
        }
    }
}

/// The answers so far with those that have come: the first error among those
/// that were awaited is one of the whole.
pub open spec fn collected<T>(
    results: Seq<Option<T>>,
    replies: Seq<Result<Option<T>, String>>,
) -> Result<Seq<Option<T>>, Seq<char>>
    decreases results.len(),
{
    if results.len() == 0 {
        Ok(Seq::empty())
    } else {
        match collected(results.drop_last(), replies.drop_last()) {
            Err(error) => Err(error),
            Ok(before) => if results.last() is Some {
                Ok(before.push(results.last()))
            } else {
                match replies.last() {
                    Err(error) => Err(error@),
                    Ok(reply) => Ok(before.push(reply)),
                }
            },
        }
    }
}

/// What is held of the answers when those that have come are taken in, up to
/// the first error.
pub open spec fn held<T>(
    results: Seq<Option<T>>,
    replies: Seq<Result<Option<T>, String>>,
) -> Seq<Option<T>> {
    Seq::new(
        results.len(),
        |i: int|
            if results[i] is Some || collected(results.take(i), replies.take(i)) is Err {
                results[i]
            } else {
                match replies[i] {
                    Ok(reply) => reply,
                    Err(_) => None,
                }
            },
    )
}

/// Whether every answer is there.
pub open spec fn complete<T>(results: Seq<Option<T>>) -> bool {
    forall|i: int| 0 <= i < results.len() ==> #[trigger] results[i] is Some
}

/// Takes in answers, and says whether every one is there.
pub fn collect<T>(results: &mut Vec<Option<T>>, replies: Vec<Result<Option<T>, String>>) -> (result:
    Result<bool, String>)
    requires
        old(results)@.len() == replies@.len(),
    ensures
        final(results)@ == held(old(results)@, replies@),
        match collected(old(results)@, replies@) {
            Ok(list) => final(results)@ == list && (result matches Ok(all) && all == complete(list)),
            Err(error) => result is Err && result->Err_0@ == error,
        },
{
    let ghost all = results@;
    let ghost came = replies@;
    let mut coming = replies;
    let mut i: usize = 0;
    assert(came.skip(0) =~= came);
    assert(all.take(0) =~= Seq::empty());
    assert(results@.take(0) =~= Seq::empty());
    while i < results.len()
        invariant
            i <= all.len(),
            all.len() == came.len(),
            all == old(results)@,
            came == replies@,
            results@.len() == all.len(),
            coming@ == came.skip(i as int),
            collected(all.take(i as int), came.take(i as int)) == Ok::<Seq<Option<T>>, Seq<char>>(
                results@.take(i as int),
            ),
            forall|k: int| 0 <= k < i ==> #[trigger] results@[k] == held(all, came)[k],
            forall|k: int| i <= k < all.len() ==> #[trigger] results@[k] == all[k],
        decreases all.len() - i,
    {
        proof {
            assert(all.take(i + 1).drop_last() =~= all.take(i as int));
            assert(came.take(i + 1).drop_last() =~= came.take(i as int));
            assert(all.take(i + 1).last() == all[i as int]);
            assert(came.take(i + 1).last() == came[i as int]);
            assert(came.skip(i as int)[0] == came[i as int]);
            assert(came.skip(i as int).remove(0) =~= came.skip(i + 1));
        }
        let ghost before = results@;
        let reply = coming.remove(0);
        if results[i].is_none() {
            match reply {
                Ok(reply) => {
                    results[i] = reply;
                },
                Err(error) => {
                    proof {
                        lemma_collected_stop(all, came, i + 1);
                        assert forall|k: int| i <= k < all.len() implies #[trigger] results@[k]
                            == held(all, came)[k] by {
                            if k > i {
                                lemma_collected_stop(all.take(k), came.take(k), i + 1);
                                assert(all.take(k).take(i + 1) =~= all.take(i + 1));
                                assert(came.take(k).take(i + 1) =~= came.take(i + 1));
                            }
                        }
                        assert(results@ =~= held(all, came));
                    }
                    return Err(error);
                },
            }
        }
        proof {
            assert(results@.take(i + 1) =~= before.take(i as int).push(results@[i as int]));
        }
        i += 1;
    }
    proof {
        assert(all.take(i as int) =~= all);
        assert(came.take(i as int) =~= came);
        assert(results@.take(i as int) =~= results@);
        assert(results@ =~= held(all, came));
    }
    Ok(is_complete(results))
}

proof fn lemma_collected_stop<T>(
    results: Seq<Option<T>>,
    replies: Seq<Result<Option<T>, String>>,
    count: int,
)
    requires
        0 <= count <= results.len(),
        results.len() == replies.len(),
        collected(results.take(count), replies.take(count)) is Err,
    ensures
        collected(results, replies) == collected(results.take(count), replies.take(count)),
    decreases results.len() - count,
{
    if count < results.len() {
        assert(results.take(count + 1).drop_last() =~= results.take(count));
        assert(replies.take(count + 1).drop_last() =~= replies.take(count));
        lemma_collected_stop(results, replies, count + 1);
    } else {
        assert(results.take(count) =~= results);
        assert(replies.take(count) =~= replies);
    }
}

fn is_complete<T>(results: &Vec<Option<T>>) -> (result: bool)
    ensures
        result == complete(results@),
{
    let mut i: usize = 0;
    while i < results.len()
        invariant
            i <= results@.len(),
            forall|k: int| 0 <= k < i ==> #[trigger] results@[k] is Some,
        decreases results@.len() - i,
    {
        if results[i].is_none() {
            return false;
        }
        i += 1;
    }
    true
}

/// The rows for the parameters of a peer, or the message that says that a value
/// is of no known kind.
pub open spec fn peer_parameters(
    peer: PeerView,
    names: Seq<Seq<char>>,
    values: Seq<ParameterValue>,
) -> Result<Seq<ParameterView>, Seq<char>>
    decreases names.len(),
{
    if names.len() == 0 {
        Ok(Seq::empty())
    } else {
        match peer_parameters(peer, names.drop_last(), values.drop_last()) {
            Err(error) => Err(error),
            Ok(before) => match value_of(values.last()) {
                Err(error) => Err(error),
                Ok((kind, value)) => Ok(
                    before.push(
                        ParameterView {
                            node: peer.name,
                            namespace: peer.namespace,
                            name: names.last(),
                            kind,
                            value,
                        },
                    ),
                ),
            },
        }
    }
}

/// The rows for the parameters of all peers, or the first error.
pub open spec fn all_parameters(
    peers: Seq<PeerView>,
    names: Seq<Seq<Seq<char>>>,
    values: Seq<Option<Seq<ParameterValue>>>,
) -> Result<Seq<ParameterView>, Seq<char>>
    decreases peers.len(),
{
    if peers.len() == 0 {
        Ok(Seq::empty())
    } else {
        match all_parameters(peers.drop_last(), names.drop_last(), values.drop_last()) {
            Err(error) => Err(error),
            Ok(before) => {
                let peer = peers.last();
                let list = values.last()->Some_0;
                if names.last().len() != list.len() {
                    Err(
                        peer.namespace + "/"@ + peer.name
                            + ": parameter response length mismatch"@,
                    )
                } else {
                    match peer_parameters(peer, names.last(), list) {
                        Err(error) => Err(error),
                        Ok(more) => Ok(before + more),
                    }
                }
            },
        }
    }
}

/// What is left of the answers once rows were made of them: an answer is taken
/// when its turn comes, and the first error ends it.
pub open spec fn untaken(
    peers: Seq<PeerView>,
    names: Seq<Seq<Seq<char>>>,
    values: Seq<Option<Seq<ParameterValue>>>,
) -> Seq<Option<Seq<ParameterValue>>> {
    Seq::new(
        values.len(),
        |i: int|
            if all_parameters(peers.take(i), names.take(i), values.take(i)) is Ok {
                None
            } else {
                values[i]
            },
    )
}

/// The text that says that a stage has taken too long.
pub open spec fn timeout_text(stage: StageView) -> Seq<char> {
    "parameter "@ + (match stage {
        StageView::Ready => "service discovery"@,
        StageView::Listing(_) => "list"@,
        StageView::Getting(_, _) => "get"@,
    }) + " timed out after 3 seconds"@
}

/// Nothing yet from each of `count` peers.
pub open spec fn nothing_yet<T>(count: nat) -> Seq<Option<T>> {
    Seq::new(count, |i: int| None)
}

/// Whether an input is one that the poll has asked for.
pub open spec fn expected(poll: PollView, input: Input) -> bool {
    match input {
        Input::Tick => true,
        Input::Ready(_) => poll.stage is Ready,
        Input::ListCalled(_) => poll.stage is Ready,
        Input::Listed(replies) => poll.stage is Listing && replies@.len() == poll.clients.len(),
        Input::GetCalled(_) => poll.stage is Getting,
        Input::Got(replies) => poll.stage is Getting && replies@.len() == poll.clients.len(),
    }
}

/// The poll has an answer, or none yet, for each of its peers.
pub open spec fn balanced(poll: PollView) -> bool {
    match poll.stage {
        StageView::Ready => true,
        StageView::Listing(results) => results.len() == poll.clients.len(),
        StageView::Getting(results, names) => results.len() == poll.clients.len()
            && names.len() == poll.clients.len(),
    }
}

/// The replies with names, by content.
pub open spec fn list_replies(replies: Seq<Result<Option<Vec<String>>, String>>) -> Seq<
    Result<Option<Seq<Seq<char>>>, String>,
> {
    replies.map_values(
        |reply: Result<Option<Vec<String>>, String>|
            match reply {
                Ok(names) => Ok(names_view(names)),
                Err(error) => Err(error),
            },
    )
}

/// The replies with values, by content.
pub open spec fn get_replies(replies: Seq<Result<Option<Vec<ParameterValue>>, String>>) -> Seq<
    Result<Option<Seq<ParameterValue>>, String>,
> {
    replies.map_values(
        |reply: Result<Option<Vec<ParameterValue>>, String>|
            match reply {
                Ok(values) => Ok(values_view(values)),
                Err(error) => Err(error),
            },
    )
}

/// The names of each peer in strict order, each once.
pub open spec fn normalized_names(results: Seq<Option<Seq<Seq<char>>>>) -> Seq<Seq<Seq<char>>> {
    results.map_values(
        |names: Option<Seq<Seq<char>>>| normalized::<String>(names->Some_0),
    )
}

/// The poll after an input, and what it asks for.
pub open spec fn ticked(poll: PollView, input: Input, now: u64) -> (PollView, OutputView) {
    match input {
        Input::Tick => (
            poll,
            if now >= poll.deadline {
                OutputView::Fail(timeout_text(poll.stage))
            } else {
                match poll.stage {
                    StageView::Ready => OutputView::CheckReady,
                    StageView::Listing(_) => OutputView::CollectList,
                    StageView::Getting(_, _) => OutputView::CollectGet,
                }
            },
        ),
        Input::Ready(result) => (
            poll,
            match result {
                Ok(ready) => if ready {
                    OutputView::CallList
                } else {
                    OutputView::Wait
                },
                Err(error) => OutputView::Fail(error@),
            },
        ),
        Input::ListCalled(result) => match result {
            Ok(_) => (
                PollView {
                    stage: StageView::Listing(nothing_yet(poll.clients.len())),
                    deadline: (now + STAGE) as u64,
                    ..poll
                },
                OutputView::Wait,
            ),
            Err(error) => (poll, OutputView::Fail(error@)),
        },
        Input::Listed(replies) => match collected(
            poll.stage->Listing_0,
            list_replies(replies@),
        ) {
            Err(error) => (
                PollView {
                    stage: StageView::Listing(
                        held(poll.stage->Listing_0, list_replies(replies@)),
                    ),
                    ..poll
                },
                OutputView::Fail(error),
            ),
            Ok(results) => if complete(results) {
                (
                    PollView {
                        stage: StageView::Getting(
                            nothing_yet(poll.clients.len()),
                            normalized_names(results),
                        ),
                        ..poll
                    },
                    OutputView::CallGet(normalized_names(results)),
                )
            } else {
                (PollView { stage: StageView::Listing(results), ..poll }, OutputView::Wait)
            },
        },
        Input::GetCalled(result) => match result {
            Ok(_) => (
                PollView { deadline: (now + STAGE) as u64, ..poll },
                OutputView::Wait,
            ),
            Err(error) => (
                PollView { stage: StageView::Listing(nothing_yet(poll.clients.len())), ..poll },
                OutputView::Fail(error@),
            ),
        },
        Input::Got(replies) => {
            let names = poll.stage->Getting_1;
            let results = held(poll.stage->Getting_0, get_replies(replies@));
            let waits = PollView { stage: StageView::Getting(results, names), ..poll };
            match collected(poll.stage->Getting_0, get_replies(replies@)) {
                Err(error) => (waits, OutputView::Fail(error)),
                Ok(_) => if !complete(results) {
                    (waits, OutputView::Wait)
                } else {
                    (
                        PollView {
                            stage: StageView::Getting(
                                untaken(poll.clients, names, results),
                                names,
                            ),
                            ..poll
                        },
                        match all_parameters(poll.clients, names, results) {
                            Ok(parameters) => OutputView::Done(parameters),
                            Err(error) => OutputView::Fail(error),
                        },
                    )
                },
            }
        },
    }
}

/// The peers whose services list parameters.
pub open spec fn listing_peers(
    peers: Seq<PeerView>,
    services: Seq<Vec<(String, Vec<String>)>>,
) -> Seq<PeerView>
    decreases peers.len(),
{
    if peers.len() == 0 {
        Seq::empty()
    } else {
        let before = listing_peers(peers.drop_last(), services.drop_last());
        if advertised(services.last()@, peers.last().list) {
            before.push(peers.last())
        } else {
            before
        }
    }
}

impl Poll {
    /// The poll is balanced.
    pub open spec fn well_formed(&self) -> bool {
        balanced(self@)
    }

    /// Starts a poll of those peers whose services list parameters.
    pub fn start(
        peers: Vec<Peer>,
        services: &Vec<Vec<(String, Vec<String>)>>,
        now: u64,
    ) -> (poll: Poll)
        requires
            peers@.len() == services@.len(),
            now <= LATEST,
        ensures
            poll.well_formed(),
            poll@ == (PollView {
                clients: listing_peers(peer_views(peers@), services@),
                stage: StageView::Ready,
                deadline: (now + STAGE) as u64,
            }),
            poll@.deadline == now + 3000,
    {
        let ghost views = peer_views(peers@);
        let mut clients: Vec<Peer> = Vec::new();
        let mut left = peers;
        let mut i: usize = 0;
        assert(peers@.skip(0) =~= peers@);
        assert(views.take(0) =~= Seq::empty());
        assert(peer_views(clients@) =~= Seq::empty());
        while i < services.len()
            invariant
                i <= services@.len(),
                peers@.len() == services@.len(),
                views == peer_views(peers@),
                left@ == peers@.skip(i as int),
                peer_views(clients@) == listing_peers(
                    views.take(i as int),
                    services@.take(i as int),
                ),
            decreases services@.len() - i,
        {
            proof {
                assert(views.take(i + 1).drop_last() =~= views.take(i as int));
                assert(services@.take(i + 1).drop_last() =~= services@.take(i as int));
                assert(views.take(i + 1).last() == peers@[i as int]@);
                assert(services@.take(i + 1).last() == services@[i as int]);
                assert(peers@.skip(i as int)[0] == peers@[i as int]);
                assert(peers@.skip(i as int).remove(0) =~= peers@.skip(i + 1));
            }
            let peer = left.remove(0);
            if advertises(&services[i], &peer.list) {
                let ghost before = peer_views(clients@);
                clients.push(peer);
                assert(peer_views(clients@) =~= before.push(peer@));
            }
            i += 1;
        }
        assert(views.take(i as int) =~= views);
        assert(services@.take(i as int) =~= services@);
        Poll { clients, stage: Stage::Ready, deadline: now + STAGE }
    }

    /// Whether an input is one that the poll has asked for.
    pub fn expects(&self, input: &Input) -> (result: bool)
        ensures
            result == expected(self@, *input),
    {
        match (input, &self.stage) {
            (Input::Tick, _) => true,
            (Input::Ready(_), Stage::Ready) => true,
            (Input::ListCalled(_), Stage::Ready) => true,
            (Input::Listed(replies), Stage::Listing(_)) => replies.len() == self.clients.len(),
            (Input::GetCalled(_), Stage::Getting(_, _)) => true,
            (Input::Got(replies), Stage::Getting(_, _)) => replies.len() == self.clients.len(),
            _ => false,
        }
    }

    /// Takes in an input, and says what is asked for.
    pub fn tick(&mut self, input: Input, now: u64) -> (output: Output)
        requires
            old(self).well_formed(),
            expected(old(self)@, input),
            now <= LATEST,
        ensures
            final(self).well_formed(),
            (final(self)@, output@) == ticked(old(self)@, input, now),
    {
        match input {
            Input::Tick => {
                if now >= self.deadline {
                    let stage = match &self.stage {
                        Stage::Ready => "service discovery",
                        Stage::Listing(_) => "list",
                        Stage::Getting(_, _) => "get",
                    };
                    let mut text = combine("parameter ", stage);
                    text.append(" timed out after 3 seconds");
                    return Output::Fail(text);
                }
                match &self.stage {
                    Stage::Ready => Output::CheckReady,
                    Stage::Listing(_) => Output::CollectList,
                    Stage::Getting(_, _) => Output::CollectGet,
                }
            },
            Input::Ready(Ok(ready)) => if ready {
                Output::CallList
            } else {
                Output::Wait
            },
            Input::Ready(Err(error)) => Output::Fail(error),
            Input::ListCalled(Ok(_)) => {
                let results: Vec<Option<Vec<String>>> = none_yet(self.clients.len());
                let ghost count = self.clients@.len();
                self.stage = Stage::Listing(results);
                self.deadline = now + STAGE;
                assert(self.stage@->Listing_0 =~= nothing_yet(count));
                Output::Wait
            },
            Input::ListCalled(Err(error)) => Output::Fail(error),
            Input::Listed(replies) => self.listed(replies),
            Input::GetCalled(Ok(_)) => {
                self.deadline = now + STAGE;
                Output::Wait
            },
            Input::GetCalled(Err(error)) => {
                let results: Vec<Option<Vec<String>>> = none_yet(self.clients.len());
                let ghost count = self.clients@.len();
                self.stage = Stage::Listing(results);
                assert(self.stage@->Listing_0 =~= nothing_yet(count));
                Output::Fail(error)
            },
            Input::Got(replies) => self.got(replies),
        }
    }

    fn listed(&mut self, replies: Vec<Result<Option<Vec<String>>, String>>) -> (output: Output)
        requires
            old(self).well_formed(),
            old(self)@.stage is Listing,
            replies@.len() == old(self)@.clients.len(),
        ensures
            final(self).well_formed(),
            (final(self)@, output@) == ticked(old(self)@, Input::Listed(replies), 0),
    {
        let mut stage = Stage::Ready;
        std::mem::swap(&mut self.stage, &mut stage);
        if let Stage::Listing(mut results) = stage {
            proof {
                lemma_collected_names(results@, replies@);
                lemma_held_names(results@, replies@);
            }
            match collect(&mut results, replies) {
                Err(error) => {
                    self.stage = Stage::Listing(results);
                    return Output::Fail(error);
                },
                Ok(false) => {
                    proof {
                        lemma_complete_names(results@);
                    }
                    self.stage = Stage::Listing(results);
                    return Output::Wait;
                },
                Ok(true) => {},
            }
            proof {
                lemma_complete_names(results@);
            }
            let names = normalize_names(results);
            let asked = copy_names(&names);
            let ghost count = self.clients@.len();
            self.stage = Stage::Getting(none_yet(self.clients.len()), names);
            assert(self.stage@->Getting_0 =~= nothing_yet(count));
            return Output::CallGet(asked);
        }
        Output::Wait
    }

    fn got(&mut self, replies: Vec<Result<Option<Vec<ParameterValue>>, String>>) -> (output: Output)
        requires
            old(self).well_formed(),
            old(self)@.stage is Getting,
            replies@.len() == old(self)@.clients.len(),
        ensures
            final(self).well_formed(),
            (final(self)@, output@) == ticked(old(self)@, Input::Got(replies), 0),
    {
        let mut stage = Stage::Ready;
        std::mem::swap(&mut self.stage, &mut stage);
        let mut output = Output::Wait;
        if let Stage::Getting(mut results, names) = stage {
            proof {
                lemma_collected_values(results@, replies@);
                lemma_held_values(results@, replies@);
            }
            match collect(&mut results, replies) {
                Err(error) => {
                    output = Output::Fail(error);
                },
                Ok(complete) => {
                    proof {
                        lemma_complete_values(results@);
                    }
                    if complete {
                        output = match gather(&self.clients, &names, &mut results) {
                            Ok(parameters) => Output::Done(parameters),
                            Err(error) => Output::Fail(error),
                        };
                    }
                },
            }
            self.stage = Stage::Getting(results, names);
        }
        output
    }
}

fn none_yet<T>(count: usize) -> (result: Vec<Option<T>>)
    ensures
        result@ == nothing_yet::<T>(count as nat),
{
    let mut result: Vec<Option<T>> = Vec::new();
    let mut i: usize = 0;
    while i < count
        invariant
            i <= count,
            result@.len() == i,
            forall|k: int| 0 <= k < i ==> #[trigger] result@[k] is None,
        decreases count - i,
    {
        result.push(None);
        i += 1;
    }
    assert(result@ =~= nothing_yet::<T>(count as nat));
    result
}

fn normalize_names(results: Vec<Option<Vec<String>>>) -> (names: Vec<Vec<String>>)
    requires
        complete(results@),
    ensures
        all_names(names@) == normalized_names(
            results@.map_values(|names: Option<Vec<String>>| names_view(names)),
        ),
{
    let ghost views = results@.map_values(|names: Option<Vec<String>>| names_view(names));
    let ghost wanted = normalized_names(views);
    let mut left = results;
    let mut names: Vec<Vec<String>> = Vec::new();
    let ghost mut i: int = 0;
    assert(results@.skip(0) =~= results@);
    while left.len() > 0
        invariant
            0 <= i <= results@.len(),
            complete(results@),
            views == results@.map_values(|names: Option<Vec<String>>| names_view(names)),
            wanted == normalized_names(views),
            left@ == results@.skip(i),
            names@.len() == i,
            forall|k: int| 0 <= k < i ==> contents((#[trigger] names@[k])@) == wanted[k],
        decreases left@.len(),
    {
        proof {
            assert(results@.skip(i)[0] == results@[i]);
            assert(results@[i] is Some);
            assert(results@.skip(i).remove(0) =~= results@.skip(i + 1));
            assert(wanted[i] == normalized::<String>(views[i]->Some_0));
        }
        let list = left.remove(0).unwrap();
        names.push(normalize(list));
        proof {
            i = i + 1;
        }
    }
    assert(all_names(names@) =~= wanted);
    names
}

fn copy_names(names: &Vec<Vec<String>>) -> (result: Vec<Vec<String>>)
    ensures
        all_names(result@) == all_names(names@),
{
    let mut result: Vec<Vec<String>> = Vec::new();
    let mut i: usize = 0;
    while i < names.len()
        invariant
            i <= names@.len(),
            result@.len() == i,
            forall|k: int| 0 <= k < i ==> contents((#[trigger] result@[k])@) == contents(names@[k]@),
        decreases names@.len() - i,
    {
        let list = &names[i];
        let mut copied: Vec<String> = Vec::new();
        let mut j: usize = 0;
        while j < list.len()
            invariant
                j <= list@.len(),
                copied@.len() == j,
                forall|k: int| 0 <= k < j ==> (#[trigger] copied@[k])@ == list@[k]@,
            decreases list@.len() - j,
        {
            copied.push(list[j].clone());
            j += 1;
        }
        assert(contents(copied@) =~= contents(list@));
        result.push(copied);
        i += 1;
    }
    assert(all_names(result@) =~= all_names(names@));
    result
}

fn gather(
    peers: &Vec<Peer>,
    names: &Vec<Vec<String>>,
    results: &mut Vec<Option<Vec<ParameterValue>>>,
) -> (result: Result<Vec<Parameter>, String>)
    requires
        peers@.len() == names@.len(),
        peers@.len() == old(results)@.len(),
        complete(old(results)@),
    ensures
        match all_parameters(
            peer_views(peers@),
            all_names(names@),
            old(results)@.map_values(|values: Option<Vec<ParameterValue>>| values_view(values)),
        ) {
            Ok(parameters) => result is Ok && parameter_views(result->Ok_0@) == parameters,
            Err(error) => result is Err && result->Err_0@ == error,
        },
        final(results)@.map_values(|values: Option<Vec<ParameterValue>>| values_view(values))
            == untaken(
            peer_views(peers@),
            all_names(names@),
            old(results)@.map_values(|values: Option<Vec<ParameterValue>>| values_view(values)),
        ),
{
    let ghost nodes = peer_views(peers@);
    let ghost lists = all_names(names@);
    let ghost all = results@;
    let ghost values = results@.map_values(
        |values: Option<Vec<ParameterValue>>| values_view(values),
    );
    let mut parameters: Vec<Parameter> = Vec::new();
    let mut i: usize = 0;
    assert(nodes.take(0) =~= Seq::empty());
    assert(parameter_views(parameters@) =~= Seq::empty());
    while i < peers.len()
        invariant
            i <= peers@.len(),
            peers@.len() == names@.len(),
            peers@.len() == all.len(),
            complete(all),
            all == old(results)@,
            results@.len() == all.len(),
            nodes == peer_views(peers@),
            lists == all_names(names@),
            values == all.map_values(|values: Option<Vec<ParameterValue>>| values_view(values)),
            forall|k: int| 0 <= k < i ==> #[trigger] results@[k] is None,
            forall|k: int| i <= k < all.len() ==> #[trigger] results@[k] == all[k],
            forall|k: int|
                0 <= k <= i ==> #[trigger] all_parameters(
                    nodes.take(k),
                    lists.take(k),
                    values.take(k),
                ) is Ok,
            all_parameters(nodes.take(i as int), lists.take(i as int), values.take(i as int))
                == Ok::<Seq<ParameterView>, Seq<char>>(parameter_views(parameters@)),
        decreases peers@.len() - i,
    {
        proof {
            assert(nodes.take(i + 1).drop_last() =~= nodes.take(i as int));
            assert(lists.take(i + 1).drop_last() =~= lists.take(i as int));
            assert(values.take(i + 1).drop_last() =~= values.take(i as int));
            assert(nodes.take(i + 1).last() == peers@[i as int]@);
            assert(lists.take(i + 1).last() == contents(names@[i as int]@));
            assert(values.take(i + 1).last() == values_view(all[i as int]));
            assert(all[i as int] is Some);
            assert(results@[i as int] == all[i as int]);
        }
        let list: Vec<ParameterValue> = results[i].take().unwrap();
        if names[i].len() != list.len() {
            let mut text = combine(peers[i].namespace.as_str(), "/");
            text.append(peers[i].name.as_str());
            text.append(": parameter response length mismatch");
            proof {
                lemma_parameters_stop(nodes, lists, values, i + 1);
                lemma_untaken(nodes, lists, values, all, results@, i as int);
            }
            return Err(text);
        }
        match gather_peer(&peers[i], &names[i], &list, &mut parameters) {
            Ok(_) => {},
            Err(error) => {
                proof {
                    lemma_parameters_stop(nodes, lists, values, i + 1);
                    lemma_untaken(nodes, lists, values, all, results@, i as int);
                }
                return Err(error);
            },
        }
        i += 1;
    }
    assert(nodes.take(i as int) =~= nodes);
    assert(lists.take(i as int) =~= lists);
    assert(values.take(i as int) =~= values);
    assert(results@.map_values(|values: Option<Vec<ParameterValue>>| values_view(values))
        =~= untaken(nodes, lists, values));
    Ok(parameters)
}

proof fn lemma_untaken(
    peers: Seq<PeerView>,
    names: Seq<Seq<Seq<char>>>,
    values: Seq<Option<Seq<ParameterValue>>>,
    all: Seq<Option<Vec<ParameterValue>>>,
    left: Seq<Option<Vec<ParameterValue>>>,
    i: int,
)
    requires
        peers.len() == names.len(),
        peers.len() == values.len(),
        values == all.map_values(|values: Option<Vec<ParameterValue>>| values_view(values)),
        left.len() == all.len(),
        0 <= i < all.len(),
        forall|k: int| 0 <= k <= i ==> #[trigger] left[k] is None,
        forall|k: int| i < k < all.len() ==> #[trigger] left[k] == all[k],
        forall|k: int|
            0 <= k <= i ==> #[trigger] all_parameters(
                peers.take(k),
                names.take(k),
                values.take(k),
            ) is Ok,
        all_parameters(peers.take(i + 1), names.take(i + 1), values.take(i + 1)) is Err,
    ensures
        left.map_values(|values: Option<Vec<ParameterValue>>| values_view(values)) == untaken(
            peers,
            names,
            values,
        ),
{
    let views = left.map_values(|values: Option<Vec<ParameterValue>>| values_view(values));
    assert forall|k: int| 0 <= k < all.len() implies #[trigger] views[k] == untaken(
        peers,
        names,
        values,
    )[k] by {
        if k <= i {
            assert(left[k] is None);
            assert(all_parameters(peers.take(k), names.take(k), values.take(k)) is Ok);
        } else {
            assert(left[k] == all[k]);
            assert(peers.take(k).take(i + 1) =~= peers.take(i + 1));
            assert(names.take(k).take(i + 1) =~= names.take(i + 1));
            assert(values.take(k).take(i + 1) =~= values.take(i + 1));
            lemma_parameters_stop(peers.take(k), names.take(k), values.take(k), i + 1);
        }
    }
    assert(views =~= untaken(peers, names, values));
}

fn gather_peer(
    peer: &Peer,
    names: &Vec<String>,
    values: &Vec<ParameterValue>,
    parameters: &mut Vec<Parameter>,
) -> (result: Result<(), String>)
    requires
        names@.len() == values@.len(),
    ensures
        match peer_parameters(peer@, contents(names@), values@) {
            Ok(more) => result is Ok && parameter_views(final(parameters)@) == parameter_views(
                old(parameters)@,
            ) + more,
            Err(error) => result is Err && result->Err_0@ == error,
        },
{
    let ghost before = parameter_views(parameters@);
    let ghost list = contents(names@);
    let mut i: usize = 0;
    assert(list.take(0) =~= Seq::empty());
    assert(before + Seq::empty() =~= before);
    while i < names.len()
        invariant
            i <= names@.len(),
            names@.len() == values@.len(),
            list == contents(names@),
            before == parameter_views(old(parameters)@),
            peer_parameters(peer@, list.take(i as int), values@.take(i as int)) is Ok,
            parameter_views(parameters@) == before + peer_parameters(
                peer@,
                list.take(i as int),
                values@.take(i as int),
            )->Ok_0,
        decreases names@.len() - i,
    {
        proof {
            assert(list.take(i + 1).drop_last() =~= list.take(i as int));
            assert(values@.take(i + 1).drop_last() =~= values@.take(i as int));
            assert(list.take(i + 1).last() == names@[i as int]@);
            assert(values@.take(i + 1).last() == values@[i as int]);
        }
        let ghost held = parameter_views(parameters@);
        match value(&values[i]) {
            Ok((kind, value)) => {
                let parameter = Parameter {
                    node: peer.name.clone(),
                    namespace: peer.namespace.clone(),
                    name: names[i].clone(),
                    kind,
                    value,
                };
                parameters.push(parameter);
                assert(parameter_views(parameters@) =~= held.push(parameter@));
                assert(parameter_views(parameters@) =~= before + peer_parameters(
                    peer@,
                    list.take(i + 1),
                    values@.take(i + 1),
                )->Ok_0);
            },
            Err(error) => {
                proof {
                    lemma_peer_stop(peer@, list, values@, i + 1);
                }
                return Err(error);
            },
        }
        i += 1;
    }
    assert(list.take(i as int) =~= list);
    assert(values@.take(i as int) =~= values@);
    Ok(())
}

proof fn lemma_peer_stop(
    peer: PeerView,
    names: Seq<Seq<char>>,
    values: Seq<ParameterValue>,
    count: int,
)
    requires
        0 <= count <= names.len(),
        names.len() == values.len(),
        peer_parameters(peer, names.take(count), values.take(count)) is Err,
    ensures
        peer_parameters(peer, names, values) == peer_parameters(
            peer,
            names.take(count),
            values.take(count),
        ),
    decreases names.len() - count,
{
    if count < names.len() {
        assert(names.take(count + 1).drop_last() =~= names.take(count));
        assert(values.take(count + 1).drop_last() =~= values.take(count));
        lemma_peer_stop(peer, names, values, count + 1);
    } else {
        assert(names.take(count) =~= names);
        assert(values.take(count) =~= values);
    }
}

proof fn lemma_parameters_stop(
    peers: Seq<PeerView>,
    names: Seq<Seq<Seq<char>>>,
    values: Seq<Option<Seq<ParameterValue>>>,
    count: int,
)
    requires
        0 <= count <= peers.len(),
        peers.len() == names.len(),
        peers.len() == values.len(),
        all_parameters(peers.take(count), names.take(count), values.take(count)) is Err,
    ensures
        all_parameters(peers, names, values) == all_parameters(
            peers.take(count),
            names.take(count),
            values.take(count),
        ),
    decreases peers.len() - count,
{
    if count < peers.len() {
        assert(peers.take(count + 1).drop_last() =~= peers.take(count));
        assert(names.take(count + 1).drop_last() =~= names.take(count));
        assert(values.take(count + 1).drop_last() =~= values.take(count));
        lemma_parameters_stop(peers, names, values, count + 1);
    } else {
        assert(peers.take(count) =~= peers);
        assert(names.take(count) =~= names);
        assert(values.take(count) =~= values);
    }
}

proof fn lemma_collected_names(
    results: Seq<Option<Vec<String>>>,
    replies: Seq<Result<Option<Vec<String>>, String>>,
)
    requires
        results.len() == replies.len(),
    ensures
        collected(
            results.map_values(|names: Option<Vec<String>>| names_view(names)),
            list_replies(replies),
        ) == (match collected(results, replies) {
            Ok(list) => Ok::<Seq<Option<Seq<Seq<char>>>>, Seq<char>>(
                list.map_values(|names: Option<Vec<String>>| names_view(names)),
            ),
            Err(error) => Err(error),
        }),
    decreases results.len(),
{
    let views = results.map_values(|names: Option<Vec<String>>| names_view(names));
    if results.len() > 0 {
        lemma_collected_names(results.drop_last(), replies.drop_last());
        assert(views.drop_last() =~= results.drop_last().map_values(
            |names: Option<Vec<String>>| names_view(names),
        ));
        assert(list_replies(replies).drop_last() =~= list_replies(replies.drop_last()));
        if let Ok(list) = collected(results, replies) {
            let before = collected(results.drop_last(), replies.drop_last())->Ok_0;
            assert(list.map_values(|names: Option<Vec<String>>| names_view(names))
                =~= before.map_values(|names: Option<Vec<String>>| names_view(names)).push(
                names_view(list.last()),
            ));
        }
    } else {
        assert(Seq::<Option<Vec<String>>>::empty().map_values(
            |names: Option<Vec<String>>| names_view(names),
        ) =~= Seq::empty());
    }
}

proof fn lemma_collected_values(
    results: Seq<Option<Vec<ParameterValue>>>,
    replies: Seq<Result<Option<Vec<ParameterValue>>, String>>,
)
    requires
        results.len() == replies.len(),
    ensures
        collected(
            results.map_values(|values: Option<Vec<ParameterValue>>| values_view(values)),
            get_replies(replies),
        ) == (match collected(results, replies) {
            Ok(list) => Ok::<Seq<Option<Seq<ParameterValue>>>, Seq<char>>(
                list.map_values(|values: Option<Vec<ParameterValue>>| values_view(values)),
            ),
            Err(error) => Err(error),
        }),
    decreases results.len(),
{
    let views = results.map_values(|values: Option<Vec<ParameterValue>>| values_view(values));
    if results.len() > 0 {
        lemma_collected_values(results.drop_last(), replies.drop_last());
        assert(views.drop_last() =~= results.drop_last().map_values(
            |values: Option<Vec<ParameterValue>>| values_view(values),
        ));
        assert(get_replies(replies).drop_last() =~= get_replies(replies.drop_last()));
        if let Ok(list) = collected(results, replies) {
            let before = collected(results.drop_last(), replies.drop_last())->Ok_0;
            assert(list.map_values(|values: Option<Vec<ParameterValue>>| values_view(values))
                =~= before.map_values(
                |values: Option<Vec<ParameterValue>>| values_view(values),
            ).push(values_view(list.last())));
        }
    } else {
        assert(Seq::<Option<Vec<ParameterValue>>>::empty().map_values(
            |values: Option<Vec<ParameterValue>>| values_view(values),
        ) =~= Seq::empty());
    }
}

proof fn lemma_held_names(
    results: Seq<Option<Vec<String>>>,
    replies: Seq<Result<Option<Vec<String>>, String>>,
)
    requires
        results.len() == replies.len(),
    ensures
        held(
            results.map_values(|names: Option<Vec<String>>| names_view(names)),
            list_replies(replies),
        ) == held(results, replies).map_values(|names: Option<Vec<String>>| names_view(names)),
{
    let views = results.map_values(|names: Option<Vec<String>>| names_view(names));
    let left = held(views, list_replies(replies));
    assert forall|i: int| 0 <= i < results.len() implies #[trigger] left[i] == names_view(
        held(results, replies)[i],
    ) by {
        lemma_collected_names(results.take(i), replies.take(i));
        assert(views.take(i) =~= results.take(i).map_values(
            |names: Option<Vec<String>>| names_view(names),
        ));
        assert(list_replies(replies).take(i) =~= list_replies(replies.take(i)));
    }
    assert(left =~= held(results, replies).map_values(
        |names: Option<Vec<String>>| names_view(names),
    ));
}

proof fn lemma_complete_names(results: Seq<Option<Vec<String>>>)
    ensures
        complete(results.map_values(|names: Option<Vec<String>>| names_view(names))) == complete(
            results,
        ),
{
    let views = results.map_values(|names: Option<Vec<String>>| names_view(names));
    assert forall|i: int| 0 <= i < results.len() implies (#[trigger] views[i] is Some
        <==> results[i] is Some) by {}
    if complete(views) {
        assert forall|i: int| 0 <= i < results.len() implies #[trigger] results[i] is Some by {
            assert(views[i] is Some);
        }
    }
}

proof fn lemma_held_values(
    results: Seq<Option<Vec<ParameterValue>>>,
    replies: Seq<Result<Option<Vec<ParameterValue>>, String>>,
)
    requires
        results.len() == replies.len(),
    ensures
        held(
            results.map_values(|values: Option<Vec<ParameterValue>>| values_view(values)),
            get_replies(replies),
        ) == held(results, replies).map_values(
            |values: Option<Vec<ParameterValue>>| values_view(values),
        ),
{
    let views = results.map_values(|values: Option<Vec<ParameterValue>>| values_view(values));
    let left = held(views, get_replies(replies));
    assert forall|i: int| 0 <= i < results.len() implies #[trigger] left[i] == values_view(
        held(results, replies)[i],
    ) by {
        lemma_collected_values(results.take(i), replies.take(i));
        assert(views.take(i) =~= results.take(i).map_values(
            |values: Option<Vec<ParameterValue>>| values_view(values),
        ));
        assert(get_replies(replies).take(i) =~= get_replies(replies.take(i)));
    }
    assert(left =~= held(results, replies).map_values(
        |values: Option<Vec<ParameterValue>>| values_view(values),
    ));
}

proof fn lemma_complete_values(results: Seq<Option<Vec<ParameterValue>>>)
    ensures
        complete(
            results.map_values(|values: Option<Vec<ParameterValue>>| values_view(values)),
        ) == complete(results),
{
    let views = results.map_values(|values: Option<Vec<ParameterValue>>| values_view(values));
    assert forall|i: int| 0 <= i < results.len() implies (#[trigger] views[i] is Some
        <==> results[i] is Some) by {}
    if complete(views) {
        assert forall|i: int| 0 <= i < results.len() implies #[trigger] results[i] is Some by {
            assert(views[i] is Some);
        }
    }
}

} // verus!
