//! What holds of every poll.
use vstd::prelude::*;

use super::poll::{
    all_parameters, balanced, expected, listing_peers, normalized, normalized_names,
    peer_of, peer_parameters, ticked, timeout_text, Input, OutputView, PeerView, PollView, STAGE,
};
use super::{value_of, ParameterValue, ParameterView};
use crate::order::{is_strictly_sorted, Item};

verus! {

/// Whether a row comes before another: by node, then by namespace, then by name.
pub open spec fn row_precedes(a: ParameterView, b: ParameterView) -> bool {
    ||| <(String, String) as Item>::precedes((a.node, a.namespace), (b.node, b.namespace))
    ||| (a.node, a.namespace) == (b.node, b.namespace) && <String as Item>::precedes(
        a.name,
        b.name,
    )
}

/// Whether rows strictly increase by node, namespace and name.
pub open spec fn rows_increase(rows: Seq<ParameterView>) -> bool {
    forall|i: int, j: int|
        0 <= i < j < rows.len() ==> row_precedes(#[trigger] rows[i], #[trigger] rows[j])
}

/// Whether no two rows are for one parameter of one address.
pub open spec fn one_row_each(rows: Seq<ParameterView>) -> bool {
    forall|i: int, j: int|
        0 <= i < j < rows.len() ==> address_of(#[trigger] rows[i]) != address_of(
            #[trigger] rows[j],
        )
}

/// The node, namespace and name of a row.
pub open spec fn address_of(row: ParameterView) -> (Seq<char>, Seq<char>, Seq<char>) {
    (row.node, row.namespace, row.name)
}

/// The row for a parameter of a peer with a value.
pub open spec fn row_for(
    peer: PeerView,
    name: Seq<char>,
    value: ParameterValue,
) -> ParameterView {
    ParameterView {
        node: peer.name,
        namespace: peer.namespace,
        name,
        kind: value_of(value)->Ok_0.0,
        value: value_of(value)->Ok_0.1,
    }
}

/// How many names the first `count` peers have together.
pub open spec fn offset(names: Seq<Seq<Seq<char>>>, count: int) -> int
    decreases count,
{
    if count <= 0 {
        0
    } else {
        offset(names, count - 1) + names[count - 1].len()
    }
}

/// Whether rows are exactly those of the names of the peers, peer after peer,
/// each with the kind and the value that the peer has answered for that name.
pub open spec fn are_rows(
    rows: Seq<ParameterView>,
    peers: Seq<PeerView>,
    names: Seq<Seq<Seq<char>>>,
    values: Seq<Option<Seq<ParameterValue>>>,
) -> bool {
    &&& rows.len() == offset(names, peers.len() as int)
    &&& forall|k: int, j: int|
        #![trigger names[k][j]]
        0 <= k < peers.len() && 0 <= j < names[k].len() ==> {
            &&& names[k].len() == values[k]->Some_0.len()
            &&& value_of(values[k]->Some_0[j]) is Ok
            &&& 0 <= offset(names, k) + j < rows.len()
            &&& rows[offset(names, k) + j] == row_for(peers[k], names[k][j], values[k]->Some_0[j])
        }
}

/// Whether peers strictly increase by name and namespace.
spec fn peers_increase(peers: Seq<PeerView>) -> bool {
    forall|i: int, j: int|
        0 <= i < j < peers.len() ==> peer_precedes(#[trigger] peers[i], #[trigger] peers[j])
}

spec fn peer_precedes(a: PeerView, b: PeerView) -> bool {
    <(String, String) as Item>::precedes((a.name, a.namespace), (b.name, b.namespace))
}

/// A poll gives exactly one row for each peer and each distinct name that the
/// peer has listed, with the kind and the value of the answer for that name, in
/// strict order of node, namespace and name: also where nodes of one name were
/// found or a peer repeats a name. Where a peer answers with another number of
/// values than names were asked for, or with a value of no known kind, there are
/// no rows at all.
pub proof fn lemma_rows(
    nodes: Seq<(Seq<char>, Seq<char>)>,
    services: Seq<Vec<(String, Vec<String>)>>,
    lists: Seq<Option<Seq<Seq<char>>>>,
    values: Seq<Option<Seq<ParameterValue>>>,
)
    requires
        services.len() == normalized::<(String, String)>(nodes).len(),
        lists.len() == polled_peers(nodes, services).len(),
        values.len() == polled_peers(nodes, services).len(),
    ensures
        forall|k: int|
            0 <= k < lists.len() ==> (#[trigger] normalized_names(lists)[k]).to_set()
                == lists[k]->Some_0.to_set() && is_strictly_sorted::<String>(
                normalized_names(lists)[k],
            ),
        match all_parameters(polled_peers(nodes, services), normalized_names(lists), values) {
            Ok(rows) => {
                &&& are_rows(rows, polled_peers(nodes, services), normalized_names(lists), values)
                &&& rows_increase(rows)
                &&& one_row_each(rows)
            },
            Err(_) => true,
        },
        (exists|k: int|
            0 <= k < values.len() && !answered_fully(
                #[trigger] normalized_names(lists)[k],
                values[k]->Some_0,
            )) <==> all_parameters(
            polled_peers(nodes, services),
            normalized_names(lists),
            values,
        ) is Err,
{
    let sorted = normalized::<(String, String)>(nodes);
    let found = sorted.map_values(|node: (Seq<char>, Seq<char>)| peer_of(node));
    let peers = polled_peers(nodes, services);
    let names = normalized_names(lists);
    lemma_normalized::<(String, String)>(nodes);
    assert(peers_increase(found)) by {
        assert forall|i: int, j: int| 0 <= i < j < found.len() implies peer_precedes(
            #[trigger] found[i],
            #[trigger] found[j],
        ) by {
            assert(<(String, String) as Item>::precedes(sorted[i], sorted[j]));
        }
    }
    lemma_listing_increases(found, services);
    assert forall|k: int| 0 <= k < lists.len() implies (#[trigger] names[k]).to_set()
        == lists[k]->Some_0.to_set() && is_strictly_sorted::<String>(names[k]) by {
        lemma_normalized::<String>(lists[k]->Some_0);
    }
    lemma_all_rows(peers, names, values);
    assert(all_parameters(peers, names, values) is Ok ==> forall|k: int|
        0 <= k < values.len() ==> answered_fully(#[trigger] names[k], values[k]->Some_0));
    if let Ok(rows) = all_parameters(peers, names, values) {
        lemma_one_each(rows);
    }
}

/// The peers that are polled among the nodes of the graph.
pub open spec fn polled_peers(
    nodes: Seq<(Seq<char>, Seq<char>)>,
    services: Seq<Vec<(String, Vec<String>)>>,
) -> Seq<PeerView> {
    listing_peers(
        normalized::<(String, String)>(nodes).map_values(
            |node: (Seq<char>, Seq<char>)| peer_of(node),
        ),
        services,
    )
}

/// Whether there is a value of a known kind for each name.
pub open spec fn answered_fully(names: Seq<Seq<char>>, values: Seq<ParameterValue>) -> bool {
    names.len() == values.len() && forall|j: int|
        0 <= j < values.len() ==> value_of(#[trigger] values[j]) is Ok
}

proof fn lemma_one_each(rows: Seq<ParameterView>)
    requires
        rows_increase(rows),
    ensures
        one_row_each(rows),
{
    assert forall|i: int, j: int| 0 <= i < j < rows.len() implies address_of(#[trigger] rows[i])
        != address_of(#[trigger] rows[j]) by {
        assert(row_precedes(rows[i], rows[j]));
        let a = (rows[i].node, rows[i].namespace);
        <(String, String) as Item>::lemma_order(a, a, a);
        <String as Item>::lemma_order(rows[i].name, rows[i].name, rows[i].name);
    }
}

/// The normal form of a list exists: it is in strict order and has the same
/// members.
pub proof fn lemma_normalized<T: Item>(list: Seq<T::Content>)
    ensures
        is_strictly_sorted::<T>(normalized::<T>(list)),
        normalized::<T>(list).to_set() == list.to_set(),
{
    lemma_normalizable::<T>(list);
}

proof fn lemma_normalizable<T: Item>(list: Seq<T::Content>)
    ensures
        exists|result: Seq<T::Content>| #[trigger]
            is_strictly_sorted::<T>(result) && result.to_set() == list.to_set(),
    decreases list.len(),
{
    if list.len() == 0 {
        assert(is_strictly_sorted::<T>(list));
    } else {
        lemma_normalizable::<T>(list.drop_last());
        let before = choose|result: Seq<T::Content>| #[trigger]
            is_strictly_sorted::<T>(result) && result.to_set() == list.drop_last().to_set();
        lemma_insertable::<T>(before, list.last());
        let result = choose|result: Seq<T::Content>| #[trigger]
            is_strictly_sorted::<T>(result) && result.to_set() == before.to_set().insert(
                list.last(),
            );
        assert forall|x: T::Content| #[trigger] list.to_set().contains(x)
            <==> list.drop_last().to_set().insert(list.last()).contains(x) by {
            if list.contains(x) {
                let k = choose|k: int| 0 <= k < list.len() && list[k] == x;
                if k < list.len() - 1 {
                    assert(list.drop_last()[k] == x);
                }
            }
            if list.drop_last().contains(x) {
                let k = choose|k: int| 0 <= k < list.len() - 1 && list.drop_last()[k] == x;
                assert(list[k] == x);
            }
            assert(list[list.len() - 1] == list.last());
        }
        assert(result.to_set() =~= list.to_set());
    }
}

proof fn lemma_insertable<T: Item>(list: Seq<T::Content>, new: T::Content)
    requires
        is_strictly_sorted::<T>(list),
    ensures
        exists|result: Seq<T::Content>| #[trigger]
            is_strictly_sorted::<T>(result) && result.to_set() == list.to_set().insert(new),
    decreases list.len(),
{
    if list.len() == 0 {
        let result = seq![new];
        assert(is_strictly_sorted::<T>(result));
        assert(result[0] == new);
        assert(result.to_set() =~= list.to_set().insert(new));
    } else {
        let last = list.last();
        let init = list.drop_last();
        T::lemma_order(new, last, new);
        lemma_push_set(init, last);
        assert(init.push(last) =~= list);
        if new == last {
            assert(list.contains(list[list.len() - 1]));
            assert(list.to_set() =~= list.to_set().insert(new));
        } else if T::precedes(last, new) {
            let result = list.push(new);
            lemma_push_set(list, new);
            assert forall|i: int, j: int| 0 <= i < j < result.len() implies T::precedes(
                #[trigger] result[i],
                #[trigger] result[j],
            ) by {
                if j == list.len() && i < list.len() - 1 {
                    assert(T::precedes(list[i], list[list.len() - 1]));
                    T::lemma_order(list[i], last, new);
                }
            }
            assert(is_strictly_sorted::<T>(result));
        } else {
            assert(is_strictly_sorted::<T>(init));
            lemma_insertable::<T>(init, new);
            let before = choose|result: Seq<T::Content>| #[trigger]
                is_strictly_sorted::<T>(result) && result.to_set() == init.to_set().insert(new);
            let result = before.push(last);
            lemma_push_set(before, last);
            assert forall|i: int, j: int| 0 <= i < j < result.len() implies T::precedes(
                #[trigger] result[i],
                #[trigger] result[j],
            ) by {
                if j == before.len() {
                    assert(before.contains(before[i]));
                    assert(before.to_set().contains(before[i]));
                    if before[i] != new {
                        assert(init.contains(before[i]));
                        let k = choose|k: int| 0 <= k < init.len() && init[k] == before[i];
                        assert(T::precedes(list[k], list[list.len() - 1]));
                    }
                }
            }
            assert(is_strictly_sorted::<T>(result));
            assert(result.to_set() =~= list.to_set().insert(new));
        }
    }
}

proof fn lemma_push_set<A>(list: Seq<A>, new: A)
    ensures
        list.push(new).to_set() == list.to_set().insert(new),
{
    let pushed = list.push(new);
    assert forall|x: A| #[trigger] pushed.to_set().contains(x) <==> list.to_set().insert(
        new,
    ).contains(x) by {
        if pushed.contains(x) {
            let k = choose|k: int| 0 <= k < pushed.len() && pushed[k] == x;
            if k < list.len() {
                assert(list[k] == x);
            }
        }
        if list.contains(x) {
            let k = choose|k: int| 0 <= k < list.len() && list[k] == x;
            assert(pushed[k] == x);
        }
        assert(pushed[list.len() as int] == new);
    }
    assert(pushed.to_set() =~= list.to_set().insert(new));
}

proof fn lemma_listing_increases(
    peers: Seq<PeerView>,
    services: Seq<Vec<(String, Vec<String>)>>,
)
    requires
        peers_increase(peers),
        peers.len() == services.len(),
    ensures
        peers_increase(listing_peers(peers, services)),
        forall|i: int|
            0 <= i < listing_peers(peers, services).len() ==> peers.contains(
                #[trigger] listing_peers(peers, services)[i],
            ),
    decreases peers.len(),
{
    if peers.len() > 0 {
        let last = peers.len() - 1;
        let init = peers.drop_last();
        let before = listing_peers(init, services.drop_last());
        let after = listing_peers(peers, services);
        assert forall|i: int, j: int| 0 <= i < j < init.len() implies peer_precedes(
            #[trigger] init[i],
            #[trigger] init[j],
        ) by {
            assert(peer_precedes(peers[i], peers[j]));
        }
        lemma_listing_increases(init, services.drop_last());
        assert forall|i: int| 0 <= i < before.len() implies peers.contains(#[trigger] before[i])
            && peer_precedes(before[i], peers[last]) by {
            assert(init.contains(before[i]));
            let k = choose|k: int| 0 <= k < init.len() && init[k] == before[i];
            assert(peers[k] == before[i]);
            assert(peer_precedes(peers[k], peers[last]));
        }
        assert(peers.contains(peers[last]));
        assert forall|i: int| 0 <= i < after.len() implies peers.contains(#[trigger] after[i]) by {
            if i < before.len() {
                assert(after[i] == before[i]);
            }
        }
        assert forall|i: int, j: int| 0 <= i < j < after.len() implies peer_precedes(
            #[trigger] after[i],
            #[trigger] after[j],
        ) by {
            assert(after[i] == before[i]);
            if j < before.len() {
                assert(after[j] == before[j]);
            }
        }
    }
}

proof fn lemma_peer_rows(peer: PeerView, names: Seq<Seq<char>>, values: Seq<ParameterValue>)
    requires
        names.len() == values.len(),
    ensures
        match peer_parameters(peer, names, values) {
            Ok(rows) => {
                &&& rows.len() == names.len()
                &&& answered_fully(names, values)
                &&& forall|i: int|
                    0 <= i < rows.len() ==> #[trigger] rows[i] == row_for(peer, names[i], values[i])
            },
            Err(_) => !answered_fully(names, values),
        },
    decreases names.len(),
{
    if names.len() > 0 {
        let last = names.len() - 1;
        let earlier = values.drop_last();
        lemma_peer_rows(peer, names.drop_last(), earlier);
        assert(forall|i: int| 0 <= i < last ==> #[trigger] earlier[i] == values[i]);
        match peer_parameters(peer, names, values) {
            Ok(rows) => {
                let before = peer_parameters(peer, names.drop_last(), earlier)->Ok_0;
                assert forall|i: int| 0 <= i < rows.len() implies #[trigger] rows[i] == row_for(
                    peer,
                    names[i],
                    values[i],
                ) by {
                    if i < last {
                        assert(rows[i] == before[i]);
                        assert(earlier[i] == values[i]);
                    }
                }
                assert forall|j: int| 0 <= j < values.len() implies value_of(
                    #[trigger] values[j],
                ) is Ok by {
                    if j < last {
                        assert(value_of(earlier[j]) is Ok);
                    }
                }
            },
            Err(_) => {
                if answered_fully(names, values) {
                    assert(value_of(values[last]) is Ok);
                    assert forall|j: int| 0 <= j < earlier.len() implies value_of(
                        #[trigger] earlier[j],
                    ) is Ok by {
                        assert(value_of(values[j]) is Ok);
                    }
                }
            },
        }
    }
}

proof fn lemma_offset(names: Seq<Seq<Seq<char>>>, shorter: Seq<Seq<Seq<char>>>, a: int, b: int)
    requires
        0 <= a <= b <= shorter.len(),
        shorter.is_prefix_of(names),
    ensures
        0 <= offset(names, a) <= offset(names, b),
        offset(names, b) == offset(shorter, b),
        a < b ==> offset(names, a) + names[a].len() <= offset(names, b),
    decreases b,
{
    if b > 0 {
        assert(shorter[b - 1] == names[b - 1]);
        if a < b {
            lemma_offset(names, shorter, a, b - 1);
        } else {
            lemma_offset(names, shorter, a - 1, b - 1);
        }
    }
}

proof fn lemma_all_rows(
    peers: Seq<PeerView>,
    names: Seq<Seq<Seq<char>>>,
    values: Seq<Option<Seq<ParameterValue>>>,
)
    requires
        peers.len() == names.len(),
        peers.len() == values.len(),
        peers_increase(peers),
        forall|k: int| 0 <= k < names.len() ==> is_strictly_sorted::<String>(#[trigger] names[k]),
    ensures
        match all_parameters(peers, names, values) {
            Ok(rows) => {
                &&& are_rows(rows, peers, names, values)
                &&& rows_increase(rows)
                &&& forall|i: int|
                    0 <= i < rows.len() ==> is_row_of_peer(peers, #[trigger] rows[i])
                &&& forall|k: int|
                    0 <= k < values.len() ==> answered_fully(
                        #[trigger] names[k],
                        values[k]->Some_0,
                    )
            },
            Err(_) => exists|k: int|
                0 <= k < values.len() && !answered_fully(#[trigger] names[k], values[k]->Some_0),
        },
    decreases peers.len(),
{
    if peers.len() > 0 {
        let last = peers.len() - 1;
        let init = peers.drop_last();
        let earlier = names.drop_last();
        assert forall|i: int, j: int| 0 <= i < j < init.len() implies peer_precedes(
            #[trigger] init[i],
            #[trigger] init[j],
        ) by {
            assert(peer_precedes(peers[i], peers[j]));
        }
        assert forall|k: int| 0 <= k < earlier.len() implies is_strictly_sorted::<String>(
            #[trigger] earlier[k],
        ) by {
            assert(is_strictly_sorted::<String>(names[k]));
        }
        lemma_all_rows(init, earlier, values.drop_last());
        if all_parameters(peers, names, values) is Err {
            if all_parameters(init, earlier, values.drop_last()) is Err {
                let k = choose|k: int|
                    0 <= k < values.drop_last().len() && !answered_fully(
                        #[trigger] earlier[k],
                        values.drop_last()[k]->Some_0,
                    );
                assert(!answered_fully(names[k], values[k]->Some_0));
            } else {
                if names.last().len() == values.last()->Some_0.len() {
                    lemma_peer_rows(peers.last(), names.last(), values.last()->Some_0);
                }
                assert(!answered_fully(names[last], values[last]->Some_0));
            }
        }
        if let Ok(rows) = all_parameters(peers, names, values) {
            let before = all_parameters(init, earlier, values.drop_last())->Ok_0;
            let list = values.last()->Some_0;
            lemma_peer_rows(peers.last(), names.last(), list);
            let more = peer_parameters(peers.last(), names.last(), list)->Ok_0;
            assert(rows == before + more);
            assert(is_strictly_sorted::<String>(names[last]));
            assert forall|k: int| 0 <= k < values.len() implies answered_fully(
                #[trigger] names[k],
                values[k]->Some_0,
            ) by {
                if k < last {
                    assert(answered_fully(earlier[k], values.drop_last()[k]->Some_0));
                }
            }
            lemma_rows_placed(rows, before, more, peers, names, values);
            lemma_rows_ordered(rows, before, more, peers, names.last(), list);
        }
    }
}

/// Whether a row is for a parameter of one of the peers.
spec fn is_row_of_peer(peers: Seq<PeerView>, row: ParameterView) -> bool {
    exists|k: int|
        0 <= k < peers.len() && (#[trigger] peers[k]).name == row.node && peers[k].namespace
            == row.namespace
}

proof fn lemma_rows_placed(
    rows: Seq<ParameterView>,
    before: Seq<ParameterView>,
    more: Seq<ParameterView>,
    peers: Seq<PeerView>,
    names: Seq<Seq<Seq<char>>>,
    values: Seq<Option<Seq<ParameterValue>>>,
)
    requires
        peers.len() > 0,
        peers.len() == names.len(),
        peers.len() == values.len(),
        rows == before + more,
        are_rows(before, peers.drop_last(), names.drop_last(), values.drop_last()),
        answered_fully(names.last(), values.last()->Some_0),
        more.len() == names.last().len(),
        forall|i: int|
            0 <= i < more.len() ==> #[trigger] more[i] == row_for(
                peers.last(),
                names.last()[i],
                values.last()->Some_0[i],
            ),
    ensures
        are_rows(rows, peers, names, values),
{
    let last = peers.len() - 1;
    let earlier = names.drop_last();
    lemma_offset(names, earlier, 0, last);
    lemma_offset(names, names, 0, last + 1);
    assert forall|k: int, j: int|
        #![trigger names[k][j]]
        0 <= k < peers.len() && 0 <= j < names[k].len() implies {
        &&& names[k].len() == values[k]->Some_0.len()
        &&& value_of(values[k]->Some_0[j]) is Ok
        &&& 0 <= offset(names, k) + j < rows.len()
        &&& rows[offset(names, k) + j] == row_for(peers[k], names[k][j], values[k]->Some_0[j])
    } by {
        if k < last {
            assert(earlier[k][j] == names[k][j]);
            assert(values.drop_last()[k] == values[k]);
            lemma_offset(names, earlier, k, k);
            assert(rows[offset(names, k) + j] == before[offset(names, k) + j]);
        } else {
            assert(value_of(values.last()->Some_0[j]) is Ok);
            assert(rows[offset(names, k) + j] == more[j]);
        }
    }
}

proof fn lemma_rows_ordered(
    rows: Seq<ParameterView>,
    before: Seq<ParameterView>,
    more: Seq<ParameterView>,
    peers: Seq<PeerView>,
    names: Seq<Seq<char>>,
    values: Seq<ParameterValue>,
)
    requires
        peers.len() > 0,
        peers_increase(peers),
        rows == before + more,
        rows_increase(before),
        forall|i: int|
            0 <= i < before.len() ==> is_row_of_peer(peers.drop_last(), #[trigger] before[i]),
        is_strictly_sorted::<String>(names),
        more.len() == names.len(),
        forall|i: int|
            0 <= i < more.len() ==> #[trigger] more[i] == row_for(
                peers.last(),
                names[i],
                values[i],
            ),
    ensures
        rows_increase(rows),
        forall|i: int| 0 <= i < rows.len() ==> is_row_of_peer(peers, #[trigger] rows[i]),
{
    let last = peers.len() - 1;
    let init = peers.drop_last();
    assert forall|i: int| 0 <= i < rows.len() implies is_row_of_peer(peers, #[trigger] rows[i]) by {
        if i < before.len() {
            assert(rows[i] == before[i]);
            let k = choose|k: int|
                0 <= k < init.len() && (#[trigger] init[k]).name == before[i].node
                    && init[k].namespace == before[i].namespace;
            assert(peers[k] == init[k]);
        } else {
            assert(rows[i] == more[i - before.len()]);
            assert(peers[last].name == rows[i].node);
        }
    }
    assert forall|i: int, j: int| 0 <= i < j < rows.len() implies row_precedes(
        #[trigger] rows[i],
        #[trigger] rows[j],
    ) by {
        if j < before.len() {
            assert(rows[i] == before[i] && rows[j] == before[j]);
        } else if i >= before.len() {
            let a = i - before.len();
            let b = j - before.len();
            assert(rows[i] == more[a] && rows[j] == more[b]);
            assert(<String as Item>::precedes(names[a], names[b]));
        } else {
            let b = j - before.len();
            assert(rows[i] == before[i] && rows[j] == more[b]);
            assert(is_row_of_peer(init, before[i]));
            let k = choose|k: int|
                0 <= k < init.len() && (#[trigger] init[k]).name == before[i].node
                    && init[k].namespace == before[i].namespace;
            assert(peers[k] == init[k]);
            assert(peer_precedes(peers[k], peers[last]));
        }
    }
}

/// A stage that has not come to its end within three seconds of its beginning
/// fails the poll, and one that has time left goes on.
pub proof fn lemma_stages_time_out(poll: PollView, now: u64)
    ensures
        ticked(poll, Input::Tick, now).1 is Fail <==> now >= poll.deadline,
        now >= poll.deadline ==> ticked(poll, Input::Tick, now).1 == OutputView::Fail(
            timeout_text(poll.stage),
        ),
{
}

/// The answers of the peers are waited for three seconds from the time when
/// they were asked for.
pub proof fn lemma_stage_deadlines(poll: PollView, now: u64)
    requires
        now <= crate::time::LATEST,
    ensures
        ticked(poll, Input::ListCalled(Ok(())), now).0.deadline == now + STAGE,
        ticked(poll, Input::GetCalled(Ok(())), now).0.deadline == now + STAGE,
{
}

/// Whether an input is what a poll has asked for: with a reply for each peer.
pub open spec fn answers(output: OutputView, input: Input, peers: nat) -> bool {
    match output {
        OutputView::CheckReady => input is Ready,
        OutputView::CallList => input is ListCalled,
        OutputView::CollectList => input matches Input::Listed(replies) && replies@.len() == peers,
        OutputView::CallGet(_) => input is GetCalled,
        OutputView::CollectGet => input matches Input::Got(replies) && replies@.len() == peers,
        _ => false,
    }
}

/// What a poll has asked for can be handed to it, and a tick at any time.
pub proof fn lemma_answers_expected(poll: PollView, input: Input, now: u64, next: Input)
    requires
        expected(poll, input),
        answers(ticked(poll, input, now).1, next, poll.clients.len()) || next is Tick,
    ensures
        expected(ticked(poll, input, now).0, next),
{
}

/// A poll that goes on keeps its peers, and an answer or none yet for each.
pub proof fn lemma_poll_balanced(poll: PollView, input: Input, now: u64)
    requires
        balanced(poll),
        expected(poll, input),
    ensures
        ticked(poll, input, now).0.clients == poll.clients,
        balanced(ticked(poll, input, now).0),
{
    match input {
        Input::Listed(replies) => {
            lemma_collected_len(
                poll.stage->Listing_0,
                super::poll::list_replies(replies@),
            );
        },
        Input::Got(replies) => {
            lemma_collected_len(
                poll.stage->Getting_0,
                super::poll::get_replies(replies@),
            );
        },
        _ => {},
    }
}

proof fn lemma_collected_len<T>(results: Seq<Option<T>>, replies: Seq<Result<Option<T>, String>>)
    ensures
        super::poll::collected(results, replies) matches Ok(list) ==> list.len() == results.len(),
    decreases results.len(),
{
    if results.len() > 0 {
        lemma_collected_len(results.drop_last(), replies.drop_last());
    }
}

} // verus!
