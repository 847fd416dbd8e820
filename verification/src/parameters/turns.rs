//! What one turn of a poll changes.
use vstd::prelude::*;

use super::laws::lemma_normalized;
use super::poll::{
    advertised, all_parameters, collected, complete, get_replies, held, list_replies,
    listing_peers, normalized, peer_of, peer_parameters, ticked, trimmed, Input, OutputView,
    PeerView, PollView, StageView,
};
use super::{value_of, ParameterValue, ParameterView};
use crate::order::is_strictly_sorted;

verus! {

/// Whether a text is another one with slashes behind it, which has none at its end.
pub open spec fn is_bare(bare: Seq<char>, text: Seq<char>) -> bool {
    &&& bare.len() <= text.len()
    &&& text.take(bare.len() as int) == bare
    &&& forall|i: int| bare.len() <= i < text.len() ==> #[trigger] text[i] == '/'
    &&& bare.len() == 0 || bare[bare.len() - 1] != '/'
}

/// The services of a peer are addressed by its namespace without the slashes at its
/// end, its name and the name of the service.
pub proof fn lemma_addresses(name: Seq<char>, namespace: Seq<char>, bare: Seq<char>)
    requires
        is_bare(bare, namespace),
    ensures
        ({
            let peer = peer_of((name, namespace));
            &&& peer.name == name
            &&& peer.namespace == namespace
            &&& peer.list == bare + "/"@ + name + "/list_parameters"@
            &&& peer.get == bare + "/"@ + name + "/get_parameters"@
        }),
{
    lemma_bare(bare, namespace);
}

proof fn lemma_bare(bare: Seq<char>, text: Seq<char>)
    requires
        is_bare(bare, text),
    ensures
        trimmed(text) == bare,
    decreases text.len(),
{
    if text.len() > bare.len() {
        assert(text[text.len() - 1] == '/');
        let shorter = text.drop_last();
        assert(shorter.take(bare.len() as int) =~= text.take(bare.len() as int));
        assert forall|i: int| bare.len() <= i < shorter.len() implies #[trigger] shorter[i] == '/' by {
            assert(text[i] == '/');
        }
        lemma_bare(bare, shorter);
    } else {
        assert(text.take(bare.len() as int) =~= text);
    }
}

/// Whether a service has a name and the type that lists parameters among its types.
pub open spec fn is_list_service(
    service: (String, Vec<String>),
    name: Seq<char>,
    k: int,
) -> bool {
    &&& service.0@ == name
    &&& 0 <= k < service.1@.len()
    &&& service.1@[k]@ == "rcl_interfaces/srv/ListParameters"@
}

/// A node lists its parameters exactly where one of its services has the name and
/// the type for it.
pub proof fn lemma_advertised(services: Seq<(String, Vec<String>)>, name: Seq<char>)
    ensures
        advertised(services, name) <==> exists|i: int, k: int|
            0 <= i < services.len() && #[trigger] is_list_service(services[i], name, k),
{
    if advertised(services, name) {
        let i = choose|i: int|
            0 <= i < services.len() && (#[trigger] services[i]).0@ == name
                && super::poll::lists_parameters(services[i].1@);
        let kinds = services[i].1@;
        let k = choose|k: int|
            0 <= k < kinds.len() && (#[trigger] kinds[k])@ == "rcl_interfaces/srv/ListParameters"@;
        assert(is_list_service(services[i], name, k));
    }
    if exists|i: int, k: int|
        0 <= i < services.len() && #[trigger] is_list_service(services[i], name, k) {
        let (i, k) = choose|i: int, k: int|
            0 <= i < services.len() && #[trigger] is_list_service(services[i], name, k);
        assert(services[i].1@[k]@ == "rcl_interfaces/srv/ListParameters"@);
        assert(super::poll::lists_parameters(services[i].1@));
    }
}

/// Just the peers that list their parameters at the address for it are polled, in
/// order.
pub proof fn lemma_peers_polled(
    peer: PeerView,
    services: Vec<(String, Vec<String>)>,
    before: Seq<PeerView>,
    first: Seq<Vec<(String, Vec<String>)>>,
    behind: Seq<PeerView>,
    second: Seq<Vec<(String, Vec<String>)>>,
)
    requires
        before.len() == first.len(),
        behind.len() == second.len(),
    ensures
        listing_peers(Seq::empty(), Seq::empty()).len() == 0,
        listing_peers(before + behind, first + second) == listing_peers(before, first)
            + listing_peers(behind, second),
        advertised(services@, peer.list) ==> listing_peers(seq![peer], seq![services])
            == seq![peer],
        !advertised(services@, peer.list) ==> listing_peers(seq![peer], seq![services]).len() == 0,
    decreases behind.len(),
{
    reveal_with_fuel(listing_peers, 2);
    assert(seq![peer].drop_last() =~= Seq::empty());
    assert(seq![services].drop_last() =~= Seq::empty());
    if behind.len() > 0 {
        lemma_peers_polled(
            peer,
            services,
            before,
            first,
            behind.drop_last(),
            second.drop_last(),
        );
        assert((before + behind).drop_last() =~= before + behind.drop_last());
        assert((first + second).drop_last() =~= first + second.drop_last());
        assert((before + behind).last() == behind.last());
        assert((first + second).last() == second.last());
        assert(listing_peers(before + behind, first + second) =~= listing_peers(before, first)
            + listing_peers(behind, second));
    } else {
        assert(before + behind =~= before);
        assert(first + second =~= first);
    }
}

/// A tick changes nothing of a poll. Before the deadline of its stage the poll asks
/// for what it waits for, and from then on it fails.
pub proof fn lemma_tick(poll: PollView, now: u64)
    ensures
        ({
            let (after, output) = ticked(poll, Input::Tick, now);
            &&& after == poll
            &&& now < poll.deadline ==> {
                &&& poll.stage is Ready ==> output is CheckReady
                &&& poll.stage is Listing ==> output is CollectList
                &&& poll.stage is Getting ==> output is CollectGet
            }
            &&& now >= poll.deadline ==> {
                &&& poll.stage is Ready ==> output == OutputView::Fail(
                    "parameter "@ + "service discovery"@ + " timed out after 3 seconds"@,
                )
                &&& poll.stage is Listing ==> output == OutputView::Fail(
                    "parameter "@ + "list"@ + " timed out after 3 seconds"@,
                )
                &&& poll.stage is Getting ==> output == OutputView::Fail(
                    "parameter "@ + "get"@ + " timed out after 3 seconds"@,
                )
            }
        }),
{
}

/// Whether nothing has come from any of a number of peers.
pub open spec fn none_came<T>(results: Seq<Option<T>>, count: nat) -> bool {
    &&& results.len() == count
    &&& forall|i: int| 0 <= i < results.len() ==> #[trigger] results[i] is None
}

/// Once the services of all peers are there, the names are asked for, and from then
/// on there are three seconds for them. Until then the poll waits. An error ends it.
pub proof fn lemma_services_there(poll: PollView, error: String, now: u64)
    requires
        now <= 18446744073709491615,
    ensures
        ticked(poll, Input::Ready(Ok(true)), now) == (poll, OutputView::CallList),
        ticked(poll, Input::Ready(Ok(false)), now) == (poll, OutputView::Wait),
        ticked(poll, Input::Ready(Err(error)), now) == (poll, OutputView::Fail(error@)),
        ticked(poll, Input::ListCalled(Err(error)), now) == (poll, OutputView::Fail(error@)),
        ({
            let (after, output) = ticked(poll, Input::ListCalled(Ok(())), now);
            &&& output is Wait
            &&& after.clients == poll.clients
            &&& after.deadline == now + 3000
            &&& after.stage matches StageView::Listing(results) && none_came(
                results,
                poll.clients.len(),
            )
        }),
{
}

/// Once the values were asked for, there are three seconds for them. An error ends
/// the poll.
pub proof fn lemma_values_asked_for(poll: PollView, error: String, now: u64)
    requires
        now <= 18446744073709491615,
    ensures
        ({
            let (after, output) = ticked(poll, Input::GetCalled(Ok(())), now);
            &&& output is Wait
            &&& after.clients == poll.clients
            &&& after.deadline == now + 3000
            &&& after.stage == poll.stage
        }),
        ticked(poll, Input::GetCalled(Err(error)), now).1 == OutputView::Fail(error@),
{
}

/// Whether the first error among the answers that are waited for is at a place.
pub open spec fn fails_at<T>(
    results: Seq<Option<T>>,
    replies: Seq<Result<Option<T>, String>>,
    i: int,
) -> bool {
    &&& 0 <= i < results.len()
    &&& results[i] is None
    &&& replies[i] is Err
    &&& forall|j: int| 0 <= j < i ==> (#[trigger] results[j]) is Some || replies[j] is Ok
}

/// Whether no answer that is waited for is an error.
pub open spec fn none_fails<T>(
    results: Seq<Option<T>>,
    replies: Seq<Result<Option<T>, String>>,
) -> bool {
    forall|j: int| 0 <= j < results.len() ==> (#[trigger] results[j]) is Some || replies[j] is Ok
}

/// Whether answers are those that were there, and with them those that have come
/// from the first peers.
pub open spec fn are_joined<T>(
    joined: Seq<Option<T>>,
    results: Seq<Option<T>>,
    replies: Seq<Result<Option<T>, String>>,
    count: int,
) -> bool {
    &&& joined.len() == results.len()
    &&& forall|j: int|
        0 <= j < results.len() ==> {
            &&& results[j] is Some ==> #[trigger] joined[j] == results[j]
            &&& results[j] is None && j < count && replies[j] is Ok ==> joined[j]
                == replies[j]->Ok_0
            &&& results[j] is None && (j >= count || replies[j] is Err) ==> joined[j] is None
        }
}

/// Answers that were there are kept, and those that have come are added, up to the
/// first error of a peer that was waited for, which ends it.
pub proof fn lemma_answers_joined<T>(
    results: Seq<Option<T>>,
    replies: Seq<Result<Option<T>, String>>,
    i: int,
)
    requires
        results.len() == replies.len(),
    ensures
        fails_at(results, replies, i) ==> {
            &&& collected(results, replies) == Err::<Seq<Option<T>>, Seq<char>>(
                replies[i]->Err_0@,
            )
            &&& are_joined(held(results, replies), results, replies, i)
        },
        none_fails(results, replies) ==> {
            &&& collected(results, replies) == Ok::<Seq<Option<T>>, Seq<char>>(
                held(results, replies),
            )
            &&& are_joined(
                held(results, replies),
                results,
                replies,
                results.len() as int,
            )
        },
{
    if fails_at(results, replies, i) {
        assert(none_fails(results.take(i), replies.take(i))) by {
            assert forall|j: int| 0 <= j < i implies (#[trigger] results.take(i)[j]) is Some
                || replies.take(i)[j] is Ok by {
                assert(results[j] is Some || replies[j] is Ok);
            }
        }
        lemma_none_fails(results.take(i), replies.take(i));
        lemma_fails_at(results, replies, i);
        let joined = held(results, replies);
        assert forall|j: int| 0 <= j < results.len() implies {
            &&& results[j] is Some ==> #[trigger] joined[j] == results[j]
            &&& results[j] is None && j < i && replies[j] is Ok ==> joined[j] == replies[j]->Ok_0
            &&& results[j] is None && (j >= i || replies[j] is Err) ==> joined[j] is None
        } by {
            if j <= i {
                assert forall|m: int| 0 <= m < j implies (#[trigger] results.take(j)[m]) is Some
                    || replies.take(j)[m] is Ok by {
                    assert(results[m] is Some || replies[m] is Ok);
                }
                lemma_none_fails(results.take(j), replies.take(j));
            } else {
                assert forall|m: int| 0 <= m < i implies (#[trigger] results.take(j)[m]) is Some
                    || replies.take(j)[m] is Ok by {
                    assert(results[m] is Some || replies[m] is Ok);
                }
                assert(fails_at(results.take(j), replies.take(j), i));
                lemma_fails_at(results.take(j), replies.take(j), i);
            }
        }
    }
    if none_fails(results, replies) {
        lemma_none_fails(results, replies);
        let joined = held(results, replies);
        assert forall|j: int| 0 <= j < results.len() implies {
            &&& results[j] is Some ==> #[trigger] joined[j] == results[j]
            &&& results[j] is None && replies[j] is Ok ==> joined[j] == replies[j]->Ok_0
            &&& results[j] is None && replies[j] is Err ==> joined[j] is None
        } by {
            assert forall|m: int| 0 <= m < j implies (#[trigger] results.take(j)[m]) is Some
                || replies.take(j)[m] is Ok by {
                assert(results[m] is Some || replies[m] is Ok);
            }
            lemma_none_fails(results.take(j), replies.take(j));
        }
        let list = collected(results, replies)->Ok_0;
        assert(list =~= joined);
    }
}

proof fn lemma_none_fails<T>(results: Seq<Option<T>>, replies: Seq<Result<Option<T>, String>>)
    requires
        results.len() == replies.len(),
        none_fails(results, replies),
    ensures
        collected(results, replies) is Ok,
        collected(results, replies)->Ok_0.len() == results.len(),
        forall|j: int|
            0 <= j < results.len() ==> #[trigger] collected(results, replies)->Ok_0[j] == (
            if results[j] is Some {
                results[j]
            } else {
                replies[j]->Ok_0
            }),
    decreases results.len(),
{
    if results.len() > 0 {
        let last = results.len() - 1;
        let init = results.drop_last();
        let came = replies.drop_last();
        assert forall|j: int| 0 <= j < init.len() implies (#[trigger] init[j]) is Some
            || came[j] is Ok by {
            assert(results[j] is Some || replies[j] is Ok);
        }
        lemma_none_fails(init, came);
        assert(results[last] is Some || replies[last] is Ok);
        let before = collected(init, came)->Ok_0;
        let list = collected(results, replies)->Ok_0;
        assert forall|j: int| 0 <= j < results.len() implies #[trigger] list[j] == (
        if results[j] is Some {
            results[j]
        } else {
            replies[j]->Ok_0
        }) by {
            if j < last {
                assert(list[j] == before[j]);
                assert(init[j] == results[j] && came[j] == replies[j]);
            }
        }
    }
}

proof fn lemma_fails_at<T>(
    results: Seq<Option<T>>,
    replies: Seq<Result<Option<T>, String>>,
    i: int,
)
    requires
        results.len() == replies.len(),
        fails_at(results, replies, i),
    ensures
        collected(results, replies) == Err::<Seq<Option<T>>, Seq<char>>(replies[i]->Err_0@),
    decreases results.len(),
{
    let last = results.len() - 1;
    let init = results.drop_last();
    let came = replies.drop_last();
    assert forall|j: int| 0 <= j < i implies (#[trigger] init[j]) is Some || came[j] is Ok by {
        assert(results[j] is Some || replies[j] is Ok);
    }
    if i < last {
        assert(fails_at(init, came, i));
        lemma_fails_at(init, came, i);
    } else {
        assert(none_fails(init, came));
        lemma_none_fails(init, came);
    }
}

/// Whether names are those that came from each peer, in strict order, each once.
pub open spec fn are_asked(names: Seq<Seq<Seq<char>>>, lists: Seq<Option<Seq<Seq<char>>>>) -> bool {
    &&& names.len() == lists.len()
    &&& forall|k: int|
        0 <= k < lists.len() ==> is_strictly_sorted::<String>(#[trigger] names[k])
            && names[k].to_set() == lists[k]->Some_0.to_set()
}

/// Names that come are kept. Once every peer has answered, the values of all names
/// are asked for; until then the poll waits. The first error ends it.
pub proof fn lemma_names_come(
    clients: Seq<PeerView>,
    lists: Seq<Option<Seq<Seq<char>>>>,
    deadline: u64,
    replies: Vec<Result<Option<Vec<String>>, String>>,
    i: int,
    now: u64,
)
    requires
        lists.len() == clients.len(),
        replies@.len() == clients.len(),
    ensures
        ({
            let poll = PollView { clients, stage: StageView::Listing(lists), deadline };
            let came = list_replies(replies@);
            let (after, output) = ticked(poll, Input::Listed(replies), now);
            &&& after.clients == clients
            &&& after.deadline == deadline
            &&& fails_at(lists, came, i) ==> {
                &&& output == OutputView::Fail(came[i]->Err_0@)
                &&& after.stage matches StageView::Listing(joined) && are_joined(
                    joined,
                    lists,
                    came,
                    i,
                )
            }
            &&& none_fails(lists, came) && waits(lists, came, i) ==> {
                &&& output is Wait
                &&& after.stage matches StageView::Listing(joined) && are_joined(
                    joined,
                    lists,
                    came,
                    lists.len() as int,
                )
            }
            &&& none_fails(lists, came) && all_there(lists, came) ==> {
                &&& output matches OutputView::CallGet(names) && are_asked(
                    names,
                    held(lists, came),
                )
                &&& after.stage matches StageView::Getting(values, names) && none_came(
                    values,
                    clients.len(),
                ) && output == OutputView::CallGet(names)
            }
        }),
{
    let came = list_replies(replies@);
    lemma_answers_joined(lists, came, i);
    let joined = held(lists, came);
    if none_fails(lists, came) && waits(lists, came, i) {
        assert(joined[i] is None);
        assert(!complete(joined));
    }
    if none_fails(lists, came) && all_there(lists, came) {
        assert forall|k: int| 0 <= k < joined.len() implies #[trigger] joined[k] is Some by {
            assert(lists[k] is Some || came[k] is Ok && came[k]->Ok_0 is Some);
        }
        assert(complete(joined));
        let names = super::poll::normalized_names(joined);
        assert forall|k: int| 0 <= k < joined.len() implies is_strictly_sorted::<String>(
            #[trigger] names[k],
        ) && names[k].to_set() == joined[k]->Some_0.to_set() by {
            lemma_normalized::<String>(joined[k]->Some_0);
            assert(names[k] == normalized::<String>(joined[k]->Some_0));
        }
    }
}

/// Whether a peer has not answered yet.
pub open spec fn waits<T>(
    results: Seq<Option<T>>,
    replies: Seq<Result<Option<T>, String>>,
    i: int,
) -> bool {
    &&& 0 <= i < results.len()
    &&& results[i] is None
    &&& replies[i] matches Ok(reply) && reply is None
}

/// Whether every peer has answered, before or now.
pub open spec fn all_there<T>(
    results: Seq<Option<T>>,
    replies: Seq<Result<Option<T>, String>>,
) -> bool {
    forall|j: int|
        0 <= j < results.len() ==> (#[trigger] results[j]) is Some || replies[j] is Ok
            && replies[j]->Ok_0 is Some
}

/// Values that come are kept. Once every peer has answered, the poll ends with the
/// rows of all parameters, or with the error in making them; until then it waits.
/// The first error of a peer ends it.
pub proof fn lemma_values_come(
    clients: Seq<PeerView>,
    values: Seq<Option<Seq<ParameterValue>>>,
    names: Seq<Seq<Seq<char>>>,
    deadline: u64,
    replies: Vec<Result<Option<Vec<ParameterValue>>, String>>,
    i: int,
    now: u64,
)
    requires
        values.len() == clients.len(),
        replies@.len() == clients.len(),
    ensures
        ({
            let poll = PollView { clients, stage: StageView::Getting(values, names), deadline };
            let came = get_replies(replies@);
            let (after, output) = ticked(poll, Input::Got(replies), now);
            &&& after.clients == clients
            &&& after.deadline == deadline
            &&& after.stage matches StageView::Getting(_, kept) && kept == names
            &&& fails_at(values, came, i) ==> {
                &&& output == OutputView::Fail(came[i]->Err_0@)
                &&& are_joined(after.stage->Getting_0, values, came, i)
            }
            &&& none_fails(values, came) && waits(values, came, i) ==> {
                &&& output is Wait
                &&& are_joined(after.stage->Getting_0, values, came, values.len() as int)
            }
            &&& none_fails(values, came) && all_there(values, came) ==> (match all_parameters(
                clients,
                names,
                held(values, came),
            ) {
                Ok(rows) => output == OutputView::Done(rows),
                Err(error) => output == OutputView::Fail(error),
            })
        }),
{
    let came = get_replies(replies@);
    lemma_answers_joined(values, came, i);
    let joined = held(values, came);
    if none_fails(values, came) && waits(values, came, i) {
        assert(joined[i] is None);
        assert(!complete(joined));
    }
    if none_fails(values, came) && all_there(values, came) {
        assert forall|k: int| 0 <= k < joined.len() implies #[trigger] joined[k] is Some by {
            assert(values[k] is Some || came[k] is Ok && came[k]->Ok_0 is Some);
        }
        assert(complete(joined));
    }
}

/// The replies of peers hold the names and the errors that came from them.
pub proof fn lemma_replies_hold(
    lists: Seq<Result<Option<Vec<String>>, String>>,
    values: Seq<Result<Option<Vec<ParameterValue>>, String>>,
    i: int,
)
    requires
        0 <= i < lists.len(),
        0 <= i < values.len(),
    ensures
        list_replies(lists).len() == lists.len(),
        get_replies(values).len() == values.len(),
        lists[i] matches Err(error) ==> list_replies(lists)[i] == Err::<
            Option<Seq<Seq<char>>>,
            String,
        >(error),
        lists[i] matches Ok(None) ==> list_replies(lists)[i] == Ok::<
            Option<Seq<Seq<char>>>,
            String,
        >(None),
        lists[i] matches Ok(Some(names)) ==> {
            &&& list_replies(lists)[i] matches Ok(Some(texts)) && texts.len() == names@.len()
            &&& forall|j: int|
                0 <= j < names@.len() ==> #[trigger] (list_replies(lists)[i]->Ok_0->Some_0)[j]
                    == names@[j]@
        },
        values[i] matches Err(error) ==> get_replies(values)[i] == Err::<
            Option<Seq<ParameterValue>>,
            String,
        >(error),
        values[i] matches Ok(None) ==> get_replies(values)[i] == Ok::<
            Option<Seq<ParameterValue>>,
            String,
        >(None),
        values[i] matches Ok(Some(list)) ==> get_replies(values)[i] == Ok::<
            Option<Seq<ParameterValue>>,
            String,
        >(Some(list@)),
{
}

/// The rows of peers come peer after peer. A peer that answers with another number of
/// values than were asked for is named in the error, and the first error is that of
/// the whole.
pub proof fn lemma_rows_of_peers(
    peers: Seq<PeerView>,
    names: Seq<Seq<Seq<char>>>,
    values: Seq<Option<Seq<ParameterValue>>>,
    peer: PeerView,
    asked: Seq<Seq<char>>,
    answer: Seq<ParameterValue>,
)
    requires
        peers.len() == names.len(),
        peers.len() == values.len(),
    ensures
        all_parameters(Seq::empty(), Seq::empty(), Seq::empty()) == Ok::<
            Seq<ParameterView>,
            Seq<char>,
        >(Seq::empty()),
        ({
            let more = all_parameters(
                peers.push(peer),
                names.push(asked),
                values.push(Some(answer)),
            );
            match all_parameters(peers, names, values) {
                Err(error) => more == Err::<Seq<ParameterView>, Seq<char>>(error),
                Ok(rows) => {
                    &&& asked.len() != answer.len() ==> more == Err::<
                        Seq<ParameterView>,
                        Seq<char>,
                    >(
                        peer.namespace + "/"@ + peer.name
                            + ": parameter response length mismatch"@,
                    )
                    &&& asked.len() == answer.len() ==> (match peer_parameters(
                        peer,
                        asked,
                        answer,
                    ) {
                        Ok(last) => more == Ok::<Seq<ParameterView>, Seq<char>>(rows + last),
                        Err(error) => more == Err::<Seq<ParameterView>, Seq<char>>(error),
                    })
                },
            }
        }),
{
    assert(peers.push(peer).drop_last() =~= peers);
    assert(names.push(asked).drop_last() =~= names);
    assert(values.push(Some(answer)).drop_last() =~= values);
}

/// The rows of a peer hold its node, its namespace and, one after the other, each
/// name with the kind and the value that came for it. The first value of no known
/// kind ends it.
pub proof fn lemma_rows_of_peer(
    peer: PeerView,
    names: Seq<Seq<char>>,
    values: Seq<ParameterValue>,
    name: Seq<char>,
    value: ParameterValue,
)
    requires
        names.len() == values.len(),
    ensures
        peer_parameters(peer, Seq::empty(), Seq::empty()) == Ok::<Seq<ParameterView>, Seq<char>>(
            Seq::empty(),
        ),
        ({
            let more = peer_parameters(peer, names.push(name), values.push(value));
            match peer_parameters(peer, names, values) {
                Err(error) => more == Err::<Seq<ParameterView>, Seq<char>>(error),
                Ok(rows) => {
                    &&& value_of(value) matches Err(error) ==> more == Err::<
                        Seq<ParameterView>,
                        Seq<char>,
                    >(error)
                    &&& value_of(value) matches Ok((kind, content)) ==> {
                        &&& more is Ok
                        &&& more->Ok_0.len() == rows.len() + 1
                        &&& more->Ok_0.drop_last() == rows
                        &&& more->Ok_0.last().node == peer.name
                        &&& more->Ok_0.last().namespace == peer.namespace
                        &&& more->Ok_0.last().name == name
                        &&& more->Ok_0.last().kind == kind
                        &&& more->Ok_0.last().value == content
                    }
                },
            }
        }),
{
    assert(names.push(name).drop_last() =~= names);
    assert(values.push(value).drop_last() =~= values);
    if let Ok(rows) = peer_parameters(peer, names, values) {
        if value_of(value) is Ok {
            let more = peer_parameters(peer, names.push(name), values.push(value))->Ok_0;
            assert(more.drop_last() =~= rows);
        }
    }
}

} // verus!
