//! Snapshots of the ROS graph, and the statements that save them.
use vstd::prelude::*;
use vstd::string::*;

use crate::order::{contents, is_sorted, lemma_sorted_unique, sort};
use crate::sql::{Argument, Statement};
use crate::sql::{statement_views, ArgumentView, StatementView};
use crate::text::combine;

pub mod saved;

verus! {

/// The nodes of a graph, by name and namespace, and its topics, by name and
/// message type.
pub struct GraphSnapshot {
    pub nodes: Vec<(String, String)>,
    pub topics: Vec<(String, String)>,
}

/// The mathematical content of a [`GraphSnapshot`].
#[verifier::ext_equal]
pub struct SnapshotView {
    pub nodes: Seq<(Seq<char>, Seq<char>)>,
    pub topics: Seq<(Seq<char>, Seq<char>)>,
}

impl View for GraphSnapshot {
    type V = SnapshotView;

    open spec fn view(&self) -> SnapshotView {
        SnapshotView { nodes: contents(self.nodes@), topics: contents(self.topics@) }
    }
}

/// The nodes without the observer itself.
pub open spec fn observed_nodes(
    nodes: Seq<(Seq<char>, Seq<char>)>,
    observer: (Seq<char>, Seq<char>),
) -> Seq<(Seq<char>, Seq<char>)> {
    nodes.filter(is_other(observer))
}

/// Tells other nodes from the observer.
pub open spec fn is_other(observer: (Seq<char>, Seq<char>)) -> spec_fn(
    (Seq<char>, Seq<char>),
) -> bool {
    |node: (Seq<char>, Seq<char>)| node != observer
}

/// A pair for each type of each topic.
pub open spec fn topic_pairs(topics: Seq<(String, Vec<String>)>) -> Seq<(Seq<char>, Seq<char>)>
    decreases topics.len(),
{
    if topics.len() == 0 {
        Seq::empty()
    } else {
        topic_pairs(topics.drop_last()) + topics.last().1@.map_values(
            |kind: String| (topics.last().0@, kind@),
        )
    }
}

/// Whether a snapshot is one of a graph with the given nodes and topics: every
/// node but the observer and every pair of a topic and a type, as often as it
/// occurs, in order.
pub open spec fn is_reading(
    snapshot: SnapshotView,
    nodes: Seq<(Seq<char>, Seq<char>)>,
    observer: (Seq<char>, Seq<char>),
    pairs: Seq<(Seq<char>, Seq<char>)>,
) -> bool {
    &&& is_sorted::<(String, String)>(snapshot.nodes)
    &&& snapshot.nodes.to_multiset() == observed_nodes(nodes, observer).to_multiset()
    &&& is_sorted::<(String, String)>(snapshot.topics)
    &&& snapshot.topics.to_multiset() == pairs.to_multiset()
}

impl GraphSnapshot {
    /// Makes a snapshot of what the graph says. The observer is left out, nodes
    /// of one name are all kept, and both lists are sorted.
    pub fn read(
        observer_name: &String,
        observer_namespace: &String,
        nodes: Vec<(String, String)>,
        topics: Vec<(String, Vec<String>)>,
    ) -> (snapshot: GraphSnapshot)
        ensures
            is_reading(
                snapshot@,
                contents(nodes@),
                (observer_name@, observer_namespace@),
                topic_pairs(topics@),
            ),
    {
        let kept = without(nodes, observer_name, observer_namespace);
        let pairs = flatten(&topics);
        GraphSnapshot { nodes: sort(kept), topics: sort(pairs) }
    }

    /// Whether two snapshots are equal.
    pub fn same(&self, other: &GraphSnapshot) -> (result: bool)
        ensures
            result == (self@ == other@),
    {
        let result = same_pairs(&self.nodes, &other.nodes) && same_pairs(
            &self.topics,
            &other.topics,
        );
        assert(result ==> self@ =~= other@);
        result
    }

    /// A second snapshot with the same content.
    pub fn copy(&self) -> (result: GraphSnapshot)
        ensures
            result@ == self@,
    {
        GraphSnapshot { nodes: copy_pairs(&self.nodes), topics: copy_pairs(&self.topics) }
    }
}

/// A second list of pairs with the same contents.
pub fn copy_pairs(pairs: &Vec<(String, String)>) -> (result: Vec<(String, String)>)
    ensures
        contents(result@) == contents(pairs@),
{
    let mut result: Vec<(String, String)> = Vec::new();
    let mut i: usize = 0;
    while i < pairs.len()
        invariant
            i <= pairs@.len(),
            result@.len() == i,
            forall|k: int|
                0 <= k < i ==> (#[trigger] result@[k]).0@ == pairs@[k].0@ && result@[k].1@
                    == pairs@[k].1@,
        decreases pairs@.len() - i,
    {
        result.push((pairs[i].0.clone(), pairs[i].1.clone()));
        i += 1;
    }
    assert(contents(result@) =~= contents(pairs@));
    result
}

fn without(nodes: Vec<(String, String)>, name: &String, namespace: &String) -> (result: Vec<
    (String, String),
>)
    ensures
        contents(result@) == observed_nodes(contents(nodes@), (name@, namespace@)),
{
    let ghost all = contents(nodes@);
    let ghost observer = (name@, namespace@);
    let ghost keep = is_other(observer);
    let mut result: Vec<(String, String)> = Vec::new();
    let mut i: usize = 0;
    assert(all.take(0).filter(keep) =~= Seq::empty()) by {
        reveal(Seq::filter);
    }
    assert(contents(result@) =~= Seq::empty());
    while i < nodes.len()
        invariant
            i <= nodes@.len(),
            all == contents(nodes@),
            observer == (name@, namespace@),
            keep == is_other(observer),
            contents(result@) == all.take(i as int).filter(keep),
        decreases nodes@.len() - i,
    {
        proof {
            assert(all.take(i + 1).drop_last() =~= all.take(i as int));
            assert(all.take(i + 1).last() == (nodes@[i as int].0@, nodes@[i as int].1@));
            reveal(Seq::filter);
        }
        if nodes[i].0 != *name || nodes[i].1 != *namespace {
            let ghost before = contents(result@);
            result.push((nodes[i].0.clone(), nodes[i].1.clone()));
            assert(contents(result@) =~= before.push((nodes@[i as int].0@, nodes@[i as int].1@)));
        }
        i += 1;
    }
    assert(all.take(i as int) =~= all);
    result
}

fn flatten(topics: &Vec<(String, Vec<String>)>) -> (result: Vec<(String, String)>)
    ensures
        contents(result@) == topic_pairs(topics@),
{
    let mut result: Vec<(String, String)> = Vec::new();
    let mut i: usize = 0;
    assert(contents(result@) =~= topic_pairs(topics@.take(0)));
    while i < topics.len()
        invariant
            i <= topics@.len(),
            contents(result@) == topic_pairs(topics@.take(i as int)),
        decreases topics@.len() - i,
    {
        let name = &topics[i].0;
        let kinds = &topics[i].1;
        let ghost before = contents(result@);
        let ghost pairs = kinds@.map_values(|kind: String| (name@, kind@));
        let mut k: usize = 0;
        assert(before + pairs.take(0) =~= before);
        while k < kinds.len()
            invariant
                k <= kinds@.len(),
                pairs == kinds@.map_values(|kind: String| (name@, kind@)),
                contents(result@) == before + pairs.take(k as int),
            decreases kinds@.len() - k,
        {
            let ghost held = contents(result@);
            result.push((name.clone(), kinds[k].clone()));
            proof {
                assert(contents(result@) =~= held.push(pairs[k as int]));
                assert(before + pairs.take(k + 1) =~= held.push(pairs[k as int]));
            }
            k += 1;
        }
        proof {
            assert(pairs.take(k as int) =~= pairs);
            assert(topics@.take(i + 1).drop_last() =~= topics@.take(i as int));
            assert(topics@.take(i + 1).last() == topics@[i as int]);
            assert(topic_pairs(topics@.take(i + 1)) =~= before + pairs);
        }
        i += 1;
    }
    assert(topics@.take(i as int) =~= topics@);
    result
}

fn same_pairs(a: &Vec<(String, String)>, b: &Vec<(String, String)>) -> (result: bool)
    ensures
        result == (contents(a@) == contents(b@)),
{
    if a.len() != b.len() {
        assert(contents(a@).len() != contents(b@).len());
        return false;
    }
    let mut i: usize = 0;
    while i < a.len()
        invariant
            i <= a@.len(),
            a@.len() == b@.len(),
            forall|k: int|
                0 <= k < i ==> #[trigger] contents(a@)[k] == contents(b@)[k],
        decreases a@.len() - i,
    {
        assert(contents(a@)[i as int] == (a@[i as int].0@, a@[i as int].1@));
        assert(contents(b@)[i as int] == (b@[i as int].0@, b@[i as int].1@));
        if a[i].0 != b[i].0 || a[i].1 != b[i].1 {
            return false;
        }
        i += 1;
    }
    assert(contents(a@) =~= contents(b@));
    true
}

fn columns(pairs: &Vec<(String, String)>) -> (result: (Vec<String>, Vec<String>))
    ensures
        crate::sql::text_views(result.0@) == first_column(contents(pairs@)),
        crate::sql::text_views(result.1@) == second_column(contents(pairs@)),
{
    let mut firsts: Vec<String> = Vec::new();
    let mut seconds: Vec<String> = Vec::new();
    let mut i: usize = 0;
    while i < pairs.len()
        invariant
            i <= pairs@.len(),
            firsts@.len() == i,
            seconds@.len() == i,
            forall|k: int| 0 <= k < i ==> (#[trigger] firsts@[k])@ == pairs@[k].0@,
            forall|k: int| 0 <= k < i ==> (#[trigger] seconds@[k])@ == pairs@[k].1@,
        decreases pairs@.len() - i,
    {
        firsts.push(pairs[i].0.clone());
        seconds.push(pairs[i].1.clone());
        i += 1;
    }
    assert(crate::sql::text_views(firsts@) =~= first_column(contents(pairs@)));
    assert(crate::sql::text_views(seconds@) =~= second_column(contents(pairs@)));
    (firsts, seconds)
}

/// The first elements of pairs.
pub open spec fn first_column(pairs: Seq<(Seq<char>, Seq<char>)>) -> Seq<Seq<char>> {
    pairs.map_values(|pair: (Seq<char>, Seq<char>)| pair.0)
}

/// The second elements of pairs.
pub open spec fn second_column(pairs: Seq<(Seq<char>, Seq<char>)>) -> Seq<Seq<char>> {
    pairs.map_values(|pair: (Seq<char>, Seq<char>)| pair.1)
}

/// Whether a snapshot differs from the one that is saved, or is the first of
/// an installation.
pub open spec fn is_changed(
    snapshot: SnapshotView,
    extension: u32,
    previous: Option<SnapshotView>,
    previous_extension: Option<u32>,
) -> bool {
    previous != Some(snapshot) || previous_extension != Some(extension)
}

/// The statements that replace the saved snapshot.
pub open spec fn replacing_statements(schema: Seq<char>, snapshot: SnapshotView) -> Seq<
    StatementView,
> {
    seq![
        StatementView {
            sql: "LOCK TABLE "@ + schema + ".nodes, "@ + schema
                + ".topics IN SHARE ROW EXCLUSIVE MODE; DELETE FROM "@ + schema
                + ".nodes; DELETE FROM "@ + schema + ".topics"@,
            arguments: Seq::empty(),
        },
        StatementView {
            sql: "INSERT INTO "@ + schema
                + ".nodes SELECT n, ns, statement_timestamp() FROM unnest($1::text[], $2::text[]) AS t(n, ns)"@,
            arguments: seq![
                ArgumentView::Texts(first_column(snapshot.nodes)),
                ArgumentView::Texts(second_column(snapshot.nodes)),
            ],
        },
        StatementView {
            sql: "INSERT INTO "@ + schema
                + ".topics SELECT n, ty, statement_timestamp() FROM unnest($1::text[], $2::text[]) AS t(n, ty)"@,
            arguments: seq![
                ArgumentView::Texts(first_column(snapshot.topics)),
                ArgumentView::Texts(second_column(snapshot.topics)),
            ],
        },
    ]
}

/// The statement that records an attempt: whether a snapshot was saved, and the
/// error where there was one.
pub open spec fn status_statement(
    schema: Seq<char>,
    changed: bool,
    error: Option<Seq<char>>,
) -> StatementView {
    StatementView {
        sql: "INSERT INTO "@ + schema
            + ".worker_status AS s (singleton, worker_pid, last_checked, last_refreshed, last_error) VALUES (true, pg_backend_pid(), statement_timestamp(), CASE WHEN $1 THEN statement_timestamp() END, $2) ON CONFLICT (singleton) DO UPDATE SET worker_pid = EXCLUDED.worker_pid, last_checked = EXCLUDED.last_checked, last_refreshed = CASE WHEN $1 THEN EXCLUDED.last_refreshed ELSE s.last_refreshed END, last_error = EXCLUDED.last_error"@,
        arguments: seq![ArgumentView::Flag(changed), ArgumentView::Text(error)],
    }
}

/// The statements, to be run in one transaction, that save the outcome of an
/// attempt to read the graph.
pub open spec fn saving_statements(
    schema: Seq<char>,
    extension: u32,
    outcome: Result<SnapshotView, Seq<char>>,
    previous: Option<SnapshotView>,
    previous_extension: Option<u32>,
) -> Seq<StatementView> {
    match outcome {
        Ok(snapshot) => if is_changed(snapshot, extension, previous, previous_extension) {
            replacing_statements(schema, snapshot).push(status_statement(schema, true, None))
        } else {
            seq![status_statement(schema, false, None)]
        },
        Err(error) => seq![status_statement(schema, false, Some(error))],
    }
}

/// The content of an outcome.
pub open spec fn outcome_view(outcome: Result<&GraphSnapshot, &str>) -> Result<
    SnapshotView,
    Seq<char>,
> {
    match outcome {
        Ok(snapshot) => Ok(snapshot@),
        Err(error) => Err(error@),
    }
}

/// The content of an optional snapshot.
pub open spec fn snapshot_view(snapshot: Option<&GraphSnapshot>) -> Option<SnapshotView> {
    match snapshot {
        Some(snapshot) => Some(snapshot@),
        None => None,
    }
}

fn table_insert(schema: &str, sql: &str, pairs: &Vec<(String, String)>) -> (statement: Statement)
    ensures
        statement@ == (StatementView {
            sql: "INSERT INTO "@ + schema@ + sql@,
            arguments: seq![
                ArgumentView::Texts(first_column(contents(pairs@))),
                ArgumentView::Texts(second_column(contents(pairs@))),
            ],
        }),
{
    let mut text = combine("INSERT INTO ", schema);
    text.append(sql);
    let (firsts, seconds) = columns(pairs);
    let statement = Statement {
        sql: text,
        arguments: vec![Argument::Texts(firsts), Argument::Texts(seconds)],
    };
    assert(statement@.arguments =~= seq![
        ArgumentView::Texts(first_column(contents(pairs@))),
        ArgumentView::Texts(second_column(contents(pairs@))),
    ]);
    statement
}

/// The statements, to be run in one transaction, that save the outcome of an
/// attempt to read the graph. The saved snapshot is replaced where it differs
/// and left alone where it does not, or where the attempt failed; the attempt
/// is recorded in any case. Nothing is saved where the extension is not
/// installed: then there are no statements.
pub fn persist_snapshot(
    installed: Option<(u32, &str)>,
    snapshot: Result<&GraphSnapshot, &str>,
    previous: Option<&GraphSnapshot>,
    previous_extension: Option<u32>,
) -> (statements: Vec<Statement>)
    ensures
        statement_views(statements@) == (match installed {
            Some((extension, schema)) => saving_statements(
                schema@,
                extension,
                outcome_view(snapshot),
                snapshot_view(previous),
                previous_extension,
            ),
            None => Seq::empty(),
        }),
{
    let mut statements: Vec<Statement> = Vec::new();
    let (extension, schema) = match installed {
        Some((extension, schema)) => (extension, schema),
        None => {
            assert(statement_views(statements@) =~= Seq::empty());
            return statements;
        },
    };
    let mut changed: bool = false;
    let mut failure: Option<String> = None;
    match snapshot {
        Ok(value) => {
            let known: bool = match (previous, previous_extension) {
                (Some(before), Some(oid)) => oid == extension && before.same(value),
                _ => false,
            };
            if !known {
                changed = true;
                let mut sql = combine("LOCK TABLE ", schema);
                sql.append(".nodes, ");
                sql.append(schema);
                sql.append(".topics IN SHARE ROW EXCLUSIVE MODE; DELETE FROM ");
                sql.append(schema);
                sql.append(".nodes; DELETE FROM ");
                sql.append(schema);
                sql.append(".topics");
                let lock = Statement { sql, arguments: Vec::new() };
                assert(lock@.arguments =~= Seq::empty());
                statements.push(lock);
                statements.push(
                    table_insert(
                        schema,
                        ".nodes SELECT n, ns, statement_timestamp() FROM unnest($1::text[], $2::text[]) AS t(n, ns)",
                        &value.nodes,
                    ),
                );
                statements.push(
                    table_insert(
                        schema,
                        ".topics SELECT n, ty, statement_timestamp() FROM unnest($1::text[], $2::text[]) AS t(n, ty)",
                        &value.topics,
                    ),
                );
                assert(statement_views(statements@) =~= replacing_statements(schema@, value@));
            }
        },
        Err(message) => {
            failure = Some(message.to_owned());
        },
    }
    let mut sql = combine("INSERT INTO ", schema);
    sql.append(
        ".worker_status AS s (singleton, worker_pid, last_checked, last_refreshed, last_error) VALUES (true, pg_backend_pid(), statement_timestamp(), CASE WHEN $1 THEN statement_timestamp() END, $2) ON CONFLICT (singleton) DO UPDATE SET worker_pid = EXCLUDED.worker_pid, last_checked = EXCLUDED.last_checked, last_refreshed = CASE WHEN $1 THEN EXCLUDED.last_refreshed ELSE s.last_refreshed END, last_error = EXCLUDED.last_error",
    );
    let status = Statement {
        sql,
        arguments: vec![Argument::Flag(changed), Argument::Text(failure)],
    };
    proof {
        let error = crate::sql::text_view(failure);
        assert(status@.arguments =~= seq![ArgumentView::Flag(changed), ArgumentView::Text(error)]);
        assert(status@ == status_statement(schema@, changed, error));
    }
    statements.push(status);
    assert(statement_views(statements@) =~= saving_statements(
        schema@,
        extension,
        outcome_view(snapshot),
        snapshot_view(previous),
        previous_extension,
    ));
    statements
}

/// An unchanged graph rewrites nothing: only the attempt is recorded.
pub proof fn lemma_unchanged_untouched(
    schema: Seq<char>,
    extension: u32,
    snapshot: SnapshotView,
)
    ensures
        saving_statements(schema, extension, Ok(snapshot), Some(snapshot), Some(extension))
            == seq![status_statement(schema, false, None)],
{
}

/// A failed attempt preserves what is saved, and records the error.
pub proof fn lemma_failure_preserves(
    schema: Seq<char>,
    extension: u32,
    error: Seq<char>,
    previous: Option<SnapshotView>,
    previous_extension: Option<u32>,
)
    ensures
        saving_statements(schema, extension, Err(error), previous, previous_extension) == seq![
            status_statement(schema, false, Some(error)),
        ],
{
}

/// A snapshot that differs, or one of another installation, replaces both
/// tables and records the refresh.
pub proof fn lemma_change_replaces(
    schema: Seq<char>,
    extension: u32,
    snapshot: SnapshotView,
    previous: Option<SnapshotView>,
    previous_extension: Option<u32>,
)
    requires
        previous != Some(snapshot) || previous_extension != Some(extension),
    ensures
        saving_statements(schema, extension, Ok(snapshot), previous, previous_extension)
            == replacing_statements(schema, snapshot).push(status_statement(schema, true, None)),
{
}

/// The order in which the graph lists its nodes and topics makes no difference:
/// a graph that is read twice gives equal snapshots.
pub proof fn lemma_reading_unique(
    a: SnapshotView,
    b: SnapshotView,
    nodes: Seq<(Seq<char>, Seq<char>)>,
    reordered_nodes: Seq<(Seq<char>, Seq<char>)>,
    observer: (Seq<char>, Seq<char>),
    pairs: Seq<(Seq<char>, Seq<char>)>,
    reordered_pairs: Seq<(Seq<char>, Seq<char>)>,
)
    requires
        is_reading(a, nodes, observer, pairs),
        is_reading(b, reordered_nodes, observer, reordered_pairs),
        nodes.to_multiset() == reordered_nodes.to_multiset(),
        pairs.to_multiset() == reordered_pairs.to_multiset(),
    ensures
        a == b,
{
    lemma_filtered_count(nodes, is_other(observer));
    lemma_filtered_count(reordered_nodes, is_other(observer));
    assert(a.nodes.to_multiset() =~= b.nodes.to_multiset());
    lemma_sorted_unique::<(String, String)>(a.nodes, b.nodes);
    lemma_sorted_unique::<(String, String)>(a.topics, b.topics);
}

/// Filtering keeps what passes as often as it occurs, and nothing else.
proof fn lemma_filtered_count<A>(list: Seq<A>, keep: spec_fn(A) -> bool)
    ensures
        forall|x: A| #[trigger]
            list.filter(keep).to_multiset().count(x) == (if keep(x) {
                list.to_multiset().count(x)
            } else {
                0
            }),
    decreases list.len(),
{
    reveal(Seq::filter);
    list.to_multiset_ensures();
    list.filter(keep).to_multiset_ensures();
    if list.len() == 0 {
        assert(list.filter(keep) =~= Seq::empty());
        assert forall|x: A| #[trigger] list.filter(keep).to_multiset().count(x) == 0 by {
            assert(!list.filter(keep).contains(x));
        }
        assert forall|x: A| #[trigger] list.to_multiset().count(x) == 0 by {
            assert(!list.contains(x));
        }
    } else {
        let init = list.drop_last();
        lemma_filtered_count(init, keep);
        init.to_multiset_ensures();
        init.filter(keep).to_multiset_ensures();
        assert(list =~= init.push(list.last()));
        assert(list.to_multiset() =~= init.to_multiset().insert(list.last()));
        if keep(list.last()) {
            assert(list.filter(keep) =~= init.filter(keep).push(list.last()));
        } else {
            assert(list.filter(keep) =~= init.filter(keep));
        }
    }
}

/// The observer is not among the nodes of a snapshot, and every other node is
/// there as often as the graph lists it.
pub proof fn lemma_observer_left_out(
    snapshot: SnapshotView,
    nodes: Seq<(Seq<char>, Seq<char>)>,
    observer: (Seq<char>, Seq<char>),
    pairs: Seq<(Seq<char>, Seq<char>)>,
    other: (Seq<char>, Seq<char>),
)
    requires
        is_reading(snapshot, nodes, observer, pairs),
        other != observer,
    ensures
        !snapshot.nodes.contains(observer),
        snapshot.nodes.to_multiset().count(other) == nodes.to_multiset().count(other),
{
    lemma_filtered_count(nodes, is_other(observer));
    snapshot.nodes.to_multiset_ensures();
    assert(observed_nodes(nodes, observer).to_multiset().count(observer) == 0);
    assert(observed_nodes(nodes, observer).to_multiset().count(other)
        == nodes.to_multiset().count(other));
}

/// The topics of a snapshot are the pairs of a topic and one of its types.
pub proof fn lemma_topics_are_pairs(
    topics: Seq<(String, Vec<String>)>,
    name: Seq<char>,
    kind: Seq<char>,
)
    ensures
        topic_pairs(topics).contains((name, kind)) <==> exists|i: int, k: int|
            0 <= i < topics.len() && 0 <= k < topics[i].1@.len() && (#[trigger] topics[i]).0@
                == name && (#[trigger] topics[i].1@[k])@ == kind,
    decreases topics.len(),
{
    if topics.len() > 0 {
        let init = topics.drop_last();
        let last = topics.len() - 1;
        lemma_topics_are_pairs(init, name, kind);
        let before = topic_pairs(init);
        let more = topics.last().1@.map_values(|kind: String| (topics.last().0@, kind@));
        let all = topic_pairs(topics);
        assert(all == before + more);
        if all.contains((name, kind)) {
            let p = choose|p: int| 0 <= p < all.len() && all[p] == (name, kind);
            if p < before.len() {
                assert(before[p] == (name, kind));
                let (i, k) = choose|i: int, k: int|
                    0 <= i < init.len() && 0 <= k < init[i].1@.len() && (#[trigger] init[i]).0@
                        == name && (#[trigger] init[i].1@[k])@ == kind;
                assert(topics[i] == init[i]);
                assert(topics[i].0@ == name && topics[i].1@[k]@ == kind);
            } else {
                let k = p - before.len();
                assert(more[k] == (name, kind));
                assert(topics[last].0@ == name && topics[last].1@[k]@ == kind);
            }
        }
        if exists|i: int, k: int|
            0 <= i < topics.len() && 0 <= k < topics[i].1@.len() && (#[trigger] topics[i]).0@
                == name && (#[trigger] topics[i].1@[k])@ == kind {
            let (i, k) = choose|i: int, k: int|
                0 <= i < topics.len() && 0 <= k < topics[i].1@.len() && (#[trigger] topics[i]).0@
                    == name && (#[trigger] topics[i].1@[k])@ == kind;
            if i < last {
                assert(init[i] == topics[i]);
                assert(init[i].0@ == name && init[i].1@[k]@ == kind);
                let p = choose|p: int| 0 <= p < before.len() && before[p] == (name, kind);
                assert(all[p] == (name, kind));
            } else {
                assert(more[k] == (name, kind));
                assert(all[before.len() + k] == (name, kind));
            }
        }
    }
}

} // verus!
