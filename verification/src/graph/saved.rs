//! What a snapshot of the graph holds, and what is saved of it.
use vstd::prelude::*;

use super::{is_reading, saving_statements, topic_pairs, SnapshotView};
use crate::order::{is_sorted, text_less};
use crate::sql::{ArgumentView, StatementView};

verus! {

/// The pairs of two lists, element by element.
pub open spec fn zipped(firsts: Seq<Seq<char>>, seconds: Seq<Seq<char>>) -> Seq<
    (Seq<char>, Seq<char>),
> {
    Seq::new(
        if firsts.len() < seconds.len() {
            firsts.len()
        } else {
            seconds.len()
        },
        |i: int| (firsts[i], seconds[i]),
    )
}

/// Whether a statement fills a table with pairs: it binds two lists of one length,
/// of which the elements at each place are those of the pair at that place.
pub open spec fn fills(
    statement: StatementView,
    sql: Seq<char>,
    pairs: Seq<(Seq<char>, Seq<char>)>,
) -> bool {
    &&& statement.sql == sql
    &&& statement.arguments.len() == 2
    &&& statement.arguments[0] is Texts
    &&& statement.arguments[1] is Texts
    &&& statement.arguments[0]->Texts_0.len() == pairs.len()
    &&& statement.arguments[1]->Texts_0.len() == pairs.len()
    &&& forall|i: int|
        0 <= i < pairs.len() ==> statement.arguments[0]->Texts_0[i] == (#[trigger] pairs[i]).0
            && statement.arguments[1]->Texts_0[i] == pairs[i].1
    &&& zipped(statement.arguments[0]->Texts_0, statement.arguments[1]->Texts_0) == pairs
}

/// Whether a statement records an attempt: whether it has changed the tables, and
/// its error.
pub open spec fn is_status(
    statement: StatementView,
    schema: Seq<char>,
    changed: bool,
    error: Option<Seq<char>>,
) -> bool {
    &&& statement.sql == "INSERT INTO "@ + schema
        + ".worker_status AS s (singleton, worker_pid, last_checked, last_refreshed, last_error) VALUES (true, pg_backend_pid(), statement_timestamp(), CASE WHEN $1 THEN statement_timestamp() END, $2) ON CONFLICT (singleton) DO UPDATE SET worker_pid = EXCLUDED.worker_pid, last_checked = EXCLUDED.last_checked, last_refreshed = CASE WHEN $1 THEN EXCLUDED.last_refreshed ELSE s.last_refreshed END, last_error = EXCLUDED.last_error"@
    &&& statement.arguments.len() == 2
    &&& statement.arguments[0] == ArgumentView::Flag(changed)
    &&& statement.arguments[1] == ArgumentView::Text(error)
}

/// Whether statements replace both tables by a snapshot: they empty them, fill the
/// one with the names and namespaces of the nodes and the other with the names and
/// types of the topics, and record the change.
pub open spec fn replaces(
    statements: Seq<StatementView>,
    schema: Seq<char>,
    snapshot: SnapshotView,
) -> bool {
    &&& statements.len() == 4
    &&& statements[0].sql == "LOCK TABLE "@ + schema + ".nodes, "@ + schema
        + ".topics IN SHARE ROW EXCLUSIVE MODE; DELETE FROM "@ + schema + ".nodes; DELETE FROM "@
        + schema + ".topics"@
    &&& statements[0].arguments.len() == 0
    &&& fills(
        statements[1],
        "INSERT INTO "@ + schema
            + ".nodes SELECT n, ns, statement_timestamp() FROM unnest($1::text[], $2::text[]) AS t(n, ns)"@,
        snapshot.nodes,
    )
    &&& fills(
        statements[2],
        "INSERT INTO "@ + schema
            + ".topics SELECT n, ty, statement_timestamp() FROM unnest($1::text[], $2::text[]) AS t(n, ty)"@,
        snapshot.topics,
    )
    &&& is_status(statements[3], schema, true, None)
}

/// A snapshot replaces what is saved unless the same installation has saved one
/// with the same nodes and topics; then only the attempt is recorded, as it is
/// where there was an error.
pub proof fn lemma_saved(
    schema: Seq<char>,
    extension: u32,
    snapshot: SnapshotView,
    error: Seq<char>,
    previous: Option<SnapshotView>,
    previous_extension: Option<u32>,
)
    ensures
        ({
            let statements = saving_statements(
                schema,
                extension,
                Ok(snapshot),
                previous,
                previous_extension,
            );
            if previous_extension == Some(extension) && previous is Some && previous->Some_0.nodes
                == snapshot.nodes && previous->Some_0.topics == snapshot.topics {
                statements.len() == 1 && is_status(statements[0], schema, false, None)
            } else {
                replaces(statements, schema, snapshot)
            }
        }),
        ({
            let statements = saving_statements(
                schema,
                extension,
                Err(error),
                previous,
                previous_extension,
            );
            statements.len() == 1 && is_status(statements[0], schema, false, Some(error))
        }),
{
    let statements = saving_statements(
        schema,
        extension,
        Ok(snapshot),
        previous,
        previous_extension,
    );
    if statements.len() == 4 {
        lemma_zipped(snapshot.nodes, statements[1]);
        lemma_zipped(snapshot.topics, statements[2]);
    }
}

proof fn lemma_zipped(pairs: Seq<(Seq<char>, Seq<char>)>, statement: StatementView)
    ensures
        statement.arguments == seq![
            ArgumentView::Texts(super::first_column(pairs)),
            ArgumentView::Texts(super::second_column(pairs)),
        ] ==> zipped(statement.arguments[0]->Texts_0, statement.arguments[1]->Texts_0) == pairs,
{
    if statement.arguments == seq![
        ArgumentView::Texts(super::first_column(pairs)),
        ArgumentView::Texts(super::second_column(pairs)),
    ] {
        assert(zipped(super::first_column(pairs), super::second_column(pairs)) =~= pairs);
    }
}

/// The topics of a snapshot are the pairs that the graph lists, each as often as it
/// is listed.
pub proof fn lemma_topics_kept(
    snapshot: SnapshotView,
    nodes: Seq<(Seq<char>, Seq<char>)>,
    observer: (Seq<char>, Seq<char>),
    topics: Seq<(String, Vec<String>)>,
    pair: (Seq<char>, Seq<char>),
)
    requires
        is_reading(snapshot, nodes, observer, topic_pairs(topics)),
    ensures
        snapshot.topics.to_multiset().count(pair) == topic_pairs(topics).to_multiset().count(pair),
        snapshot.topics.contains(pair) <==> topic_pairs(topics).contains(pair),
        snapshot.topics.len() == topic_pairs(topics).len(),
{
    snapshot.topics.to_multiset_ensures();
    topic_pairs(topics).to_multiset_ensures();
    assert(snapshot.topics.contains(pair) <==> snapshot.topics.to_multiset().count(pair) > 0);
    assert(topic_pairs(topics).contains(pair) <==> topic_pairs(topics).to_multiset().count(pair)
        > 0);
}

/// A topic that comes last in the listing adds a pair for each of its types, and
/// takes none away.
pub proof fn lemma_topic_added(topics: Seq<(String, Vec<String>)>, topic: (String, Vec<String>))
    ensures
        topic_pairs(topics.push(topic)).len() == topic_pairs(topics).len() + topic.1@.len(),
        forall|i: int|
            0 <= i < topic_pairs(topics).len() ==> #[trigger] topic_pairs(topics.push(topic))[i]
                == topic_pairs(topics)[i],
        forall|k: int|
            0 <= k < topic.1@.len() ==> topic_pairs(topics.push(topic))[topic_pairs(topics).len()
                + k] == (topic.0@, (#[trigger] topic.1@[k])@),
{
    assert(topics.push(topic).drop_last() =~= topics);
    assert(topics.push(topic).last() == topic);
}

/// The nodes and the topics of a snapshot stand in the order of their names, and
/// those of one name in the order of their namespaces or types.
pub proof fn lemma_in_order(
    snapshot: SnapshotView,
    nodes: Seq<(Seq<char>, Seq<char>)>,
    observer: (Seq<char>, Seq<char>),
    pairs: Seq<(Seq<char>, Seq<char>)>,
    i: int,
    j: int,
)
    requires
        is_reading(snapshot, nodes, observer, pairs),
        0 <= i < j,
    ensures
        j < snapshot.nodes.len() ==> {
            let (a, b) = (snapshot.nodes[i], snapshot.nodes[j]);
            text_less(a.0, b.0) || (a.0 == b.0 && (text_less(a.1, b.1) || a.1 == b.1))
        },
        j < snapshot.topics.len() ==> {
            let (a, b) = (snapshot.topics[i], snapshot.topics[j]);
            text_less(a.0, b.0) || (a.0 == b.0 && (text_less(a.1, b.1) || a.1 == b.1))
        },
{
    assert(is_sorted::<(String, String)>(snapshot.nodes));
    assert(is_sorted::<(String, String)>(snapshot.topics));
    if j < snapshot.nodes.len() {
        let (a, b) = (snapshot.nodes[i], snapshot.nodes[j]);
        crate::order::lemma_text_order(a.0, b.0, a.0);
        crate::order::lemma_text_order(a.1, b.1, a.1);
    }
    if j < snapshot.topics.len() {
        let (a, b) = (snapshot.topics[i], snapshot.topics[j]);
        crate::order::lemma_text_order(a.0, b.0, a.0);
        crate::order::lemma_text_order(a.1, b.1, a.1);
    }
}

} // verus!
