//! What holds of a poll from its beginning to its end.
use vstd::prelude::*;

use super::laws::{are_rows, lemma_poll_balanced, lemma_rows, polled_peers, rows_increase};
use super::poll::{
    all_parameters, balanced, collected, complete, expected, get_replies, held, list_replies,
    normalized, normalized_names, ticked, Input, OutputView, PollView, StageView,
};
use super::{ParameterValue, ParameterView};
use crate::order::contents;

verus! {

/// An input, and when it came.
pub struct Step {
    pub input: Input,
    pub now: u64,
}

/// The poll after the steps of a run, and what it asks for.
pub open spec fn after(poll: PollView, steps: Seq<Step>) -> (PollView, OutputView)
    decreases steps.len(),
{
    if steps.len() == 0 {
        (poll, OutputView::Wait)
    } else {
        ticked(after(poll, steps.drop_last()).0, steps.last().input, steps.last().now)
    }
}

/// Whether a run begins with a poll that has just been started, and every input
/// is one that is expected.
pub open spec fn is_run(poll: PollView, steps: Seq<Step>) -> bool
    decreases steps.len(),
{
    if steps.len() == 0 {
        poll.stage is Ready
    } else {
        is_run(poll, steps.drop_last()) && expected(
            after(poll, steps.drop_last()).0,
            steps.last().input,
        )
    }
}

/// Whether an input brings the names that peer `k` has listed.
pub open spec fn names_come(input: Input, k: int, names: Seq<Seq<char>>) -> bool {
    input matches Input::Listed(replies) && 0 <= k < replies@.len() && (
    replies@[k] matches Ok(Some(list)) && contents(list@) == names)
}

/// Whether peer `k` has listed these names in a run.
pub open spec fn names_came(steps: Seq<Step>, k: int, names: Seq<Seq<char>>) -> bool {
    exists|s: int| 0 <= s < steps.len() && names_come((#[trigger] steps[s]).input, k, names)
}

/// Whether an input brings the values that peer `k` has answered.
pub open spec fn values_come(input: Input, k: int, values: Seq<ParameterValue>) -> bool {
    input matches Input::Got(replies) && 0 <= k < replies@.len() && (
    replies@[k] matches Ok(Some(list)) && list@ == values)
}

/// Whether peer `k` has answered these values in a run.
pub open spec fn values_came(steps: Seq<Step>, k: int, values: Seq<ParameterValue>) -> bool {
    exists|s: int| 0 <= s < steps.len() && values_come((#[trigger] steps[s]).input, k, values)
}

/// Whether every list of names that is there has come from its peer.
pub open spec fn names_from_peers(
    steps: Seq<Step>,
    lists: Seq<Option<Seq<Seq<char>>>>,
) -> bool {
    forall|k: int|
        0 <= k < lists.len() ==> (#[trigger] lists[k] matches Some(names) ==> names_came(
            steps,
            k,
            names,
        ))
}

/// Whether all values that are there have come from their peers.
pub open spec fn values_from_peers(
    steps: Seq<Step>,
    values: Seq<Option<Seq<ParameterValue>>>,
) -> bool {
    forall|k: int|
        0 <= k < values.len() ==> (#[trigger] values[k] matches Some(list) ==> values_came(
            steps,
            k,
            list,
        ))
}

/// Whether the values of these names were asked for in a run.
pub open spec fn asked(poll: PollView, steps: Seq<Step>, names: Seq<Seq<Seq<char>>>) -> bool {
    exists|s: int|
        0 <= s <= steps.len() && #[trigger] after(poll, steps.take(s)).1 == OutputView::CallGet(
            names,
        )
}

/// Whether each peer has listed names in a run, and these names, in strict order
/// and each once, are those whose values were asked for.
pub open spec fn are_listed(
    poll: PollView,
    steps: Seq<Step>,
    lists: Seq<Option<Seq<Seq<char>>>>,
    names: Seq<Seq<Seq<char>>>,
) -> bool {
    &&& lists.len() == poll.clients.len()
    &&& complete(lists)
    &&& names_from_peers(steps, lists)
    &&& names == normalized_names(lists)
    &&& asked(poll, steps, names)
}

/// Whether the rows of a finished poll are those of the names that the peers
/// have listed and of the values that they have answered.
pub open spec fn is_outcome(
    poll: PollView,
    steps: Seq<Step>,
    lists: Seq<Option<Seq<Seq<char>>>>,
    values: Seq<Option<Seq<ParameterValue>>>,
    rows: Seq<ParameterView>,
) -> bool {
    &&& are_listed(poll, steps, lists, normalized_names(lists))
    &&& values.len() == poll.clients.len()
    &&& complete(values)
    &&& values_from_peers(steps, values)
    &&& all_parameters(poll.clients, normalized_names(lists), values) == Ok::<
        Seq<ParameterView>,
        Seq<char>,
    >(rows)
}

/// Where a poll is done, its rows are made of the names that every one of its
/// peers has listed, and of the values that every one of them has answered for
/// these names.
pub proof fn lemma_done(poll: PollView, steps: Seq<Step>)
    requires
        is_run(poll, steps),
    ensures
        after(poll, steps).1 matches OutputView::Done(rows) ==> exists|
            lists: Seq<Option<Seq<Seq<char>>>>,
            values: Seq<Option<Seq<ParameterValue>>>,
        |
            #[trigger] is_outcome(poll, steps, lists, values, rows),
{
    lemma_run(poll, steps);
    if let OutputView::Done(rows) = after(poll, steps).1 {
        let init = steps.drop_last();
        let replies = steps.last().input->Got_0;
        let before = after(poll, init).0;
        let names = before.stage->Getting_1;
        let values = held(before.stage->Getting_0, get_replies(replies@));
        lemma_run(poll, init);
        lemma_got(steps, before.stage->Getting_0, replies);
        let lists = choose|lists: Seq<Option<Seq<Seq<char>>>>|
            are_listed(poll, steps, lists, names);
        assert(is_outcome(poll, steps, lists, values, rows));
    }
}

/// Where a poll of the peers among the nodes of the graph is done, its rows are
/// exactly one for each peer and each distinct name that the peer has listed,
/// with the kind and the value of the answer for that name, in strict order of
/// node, namespace and name.
pub proof fn lemma_finished(
    nodes: Seq<(Seq<char>, Seq<char>)>,
    services: Seq<Vec<(String, Vec<String>)>>,
    poll: PollView,
    steps: Seq<Step>,
)
    requires
        services.len() == normalized::<(String, String)>(nodes).len(),
        poll.clients == polled_peers(nodes, services),
        is_run(poll, steps),
    ensures
        after(poll, steps).1 matches OutputView::Done(rows) ==> rows_increase(rows) && exists|
            lists: Seq<Option<Seq<Seq<char>>>>,
            values: Seq<Option<Seq<ParameterValue>>>,
        |
            #[trigger] is_outcome(poll, steps, lists, values, rows) && are_rows(
                rows,
                poll.clients,
                normalized_names(lists),
                values,
            ),
{
    lemma_done(poll, steps);
    if let OutputView::Done(rows) = after(poll, steps).1 {
        let (lists, values) = choose|
            lists: Seq<Option<Seq<Seq<char>>>>,
            values: Seq<Option<Seq<ParameterValue>>>,
        |
            #[trigger] is_outcome(poll, steps, lists, values, rows);
        lemma_rows(nodes, services, lists, values);
    }
}

/// What holds of a poll after a run.
spec fn sound(poll: PollView, steps: Seq<Step>, now: PollView) -> bool {
    &&& now.clients == poll.clients
    &&& balanced(now)
    &&& match now.stage {
        StageView::Ready => true,
        StageView::Listing(lists) => names_from_peers(steps, lists),
        StageView::Getting(values, names) => values_from_peers(steps, values) && exists|
            lists: Seq<Option<Seq<Seq<char>>>>,
        |
            are_listed(poll, steps, lists, names),
    }
}

proof fn lemma_run(poll: PollView, steps: Seq<Step>)
    requires
        is_run(poll, steps),
    ensures
        sound(poll, steps, after(poll, steps).0),
    decreases steps.len(),
{
    if steps.len() > 0 {
        let init = steps.drop_last();
        lemma_run(poll, init);
        let before = after(poll, init).0;
        let input = steps.last().input;
        lemma_poll_balanced(before, input, steps.last().now);
        match before.stage {
            StageView::Ready => {},
            StageView::Listing(lists) => {
                lemma_names_kept(steps, lists);
                if let Input::Listed(replies) = input {
                    lemma_held(lists, list_replies(replies@));
                    let next = held(lists, list_replies(replies@));
                    assert forall|k: int| 0 <= k < next.len() implies (#[trigger] next[k] matches Some(
                        names,
                    ) ==> names_came(steps, k, names)) by {
                        if let Some(names) = next[k] {
                            if lists[k] is Some {
                                assert(lists[k] == Some(names));
                            } else {
                                assert(list_replies(replies@)[k] matches Ok(_));
                                assert(names_come(steps[steps.len() - 1].input, k, names));
                            }
                        }
                    }
                    if collected(lists, list_replies(replies@)) is Ok && complete(next) {
                        assert(steps.take(steps.len() as int) =~= steps);
                        assert(after(poll, steps.take(steps.len() as int)).1
                            == OutputView::CallGet(normalized_names(next)));
                        assert(are_listed(poll, steps, next, normalized_names(next)));
                    }
                }
            },
            StageView::Getting(values, names) => {
                lemma_values_kept(steps, values);
                let lists = choose|lists: Seq<Option<Seq<Seq<char>>>>|
                    are_listed(poll, init, lists, names);
                lemma_names_kept(steps, lists);
                let s = choose|s: int|
                    0 <= s <= init.len() && #[trigger] after(poll, init.take(s)).1
                        == OutputView::CallGet(names);
                assert(init.take(s) =~= steps.take(s));
                assert(are_listed(poll, steps, lists, names));
                if let Input::Got(replies) = input {
                    lemma_got(steps, values, replies);
                }
            },
        }
    }
}

proof fn lemma_got(
    steps: Seq<Step>,
    values: Seq<Option<Seq<ParameterValue>>>,
    replies: Vec<Result<Option<Vec<ParameterValue>>, String>>,
)
    requires
        steps.len() > 0,
        steps.last().input == Input::Got(replies),
        values.len() == replies@.len(),
        values_from_peers(steps.drop_last(), values),
    ensures
        values_from_peers(steps, held(values, get_replies(replies@))),
{
    lemma_values_kept(steps, values);
    let next = held(values, get_replies(replies@));
    assert forall|k: int| 0 <= k < next.len() implies (#[trigger] next[k] matches Some(list)
        ==> values_came(steps, k, list)) by {
        if let Some(list) = next[k] {
            if values[k] is Some {
                assert(values[k] == Some(list));
            } else {
                assert(get_replies(replies@)[k] matches Ok(_));
                assert(values_come(steps[steps.len() - 1].input, k, list));
            }
        }
    }
}

proof fn lemma_names_kept(steps: Seq<Step>, lists: Seq<Option<Seq<Seq<char>>>>)
    requires
        steps.len() > 0,
        names_from_peers(steps.drop_last(), lists),
    ensures
        names_from_peers(steps, lists),
{
    let init = steps.drop_last();
    assert forall|k: int| 0 <= k < lists.len() implies (#[trigger] lists[k] matches Some(names)
        ==> names_came(steps, k, names)) by {
        if let Some(names) = lists[k] {
            let s = choose|s: int|
                0 <= s < init.len() && names_come((#[trigger] init[s]).input, k, names);
            assert(steps[s] == init[s]);
        }
    }
}

proof fn lemma_values_kept(steps: Seq<Step>, values: Seq<Option<Seq<ParameterValue>>>)
    requires
        steps.len() > 0,
        values_from_peers(steps.drop_last(), values),
    ensures
        values_from_peers(steps, values),
{
    let init = steps.drop_last();
    assert forall|k: int| 0 <= k < values.len() implies (#[trigger] values[k] matches Some(list)
        ==> values_came(steps, k, list)) by {
        if let Some(list) = values[k] {
            let s = choose|s: int|
                0 <= s < init.len() && values_come((#[trigger] init[s]).input, k, list);
            assert(steps[s] == init[s]);
        }
    }
}

/// Where no awaited answer is an error, what is held is what was collected.
proof fn lemma_held<T>(results: Seq<Option<T>>, replies: Seq<Result<Option<T>, String>>)
    requires
        results.len() == replies.len(),
    ensures
        collected(results, replies) matches Ok(list) ==> list == held(results, replies),
    decreases results.len(),
{
    if results.len() > 0 {
        let last = results.len() - 1;
        let before = results.drop_last();
        let earlier = replies.drop_last();
        lemma_held(before, earlier);
        if let Ok(list) = collected(results, replies) {
            assert forall|i: int| 0 <= i < results.len() implies #[trigger] list[i] == held(
                results,
                replies,
            )[i] by {
                assert(results.take(last) =~= before);
                assert(replies.take(last) =~= earlier);
                if i < last {
                    assert(before.take(i) =~= results.take(i));
                    assert(earlier.take(i) =~= replies.take(i));
                    assert(held(before, earlier)[i] == held(results, replies)[i]);
                }
            }
            assert(list =~= held(results, replies));
        }
    } else {
        assert(held(results, replies) =~= Seq::empty());
    }
}

} // verus!
